//! Maps from an integer key to a non-empty finite set of integer keys.
//!
//! Both activity indexes have this shape: an editor's set of days, and a day's
//! set of editors. A key with no members is absent rather than present with
//! an empty set.

use crate::sorted_set::{
    increasing, lemma_found_at, lemma_increasing_distinct, lemma_insert_absent, lemma_merge_done,
    lemma_merge_step, lower_bound, merged_up_to, parts_at, SortedSet,
};
use vstd::prelude::*;

verus! {

/// The members filed under `k`, empty where `k` has no entry.
pub open spec fn row(m: Map<i64, Set<i64>>, k: i64) -> Set<i64> {
    if m.dom().contains(k) {
        m[k]
    } else {
        Set::empty()
    }
}

/// `m` after filing `v` under `k`.
pub open spec fn add_pair(m: Map<i64, Set<i64>>, k: i64, v: i64) -> Map<i64, Set<i64>> {
    m.insert(k, row(m, k).insert(v))
}

/// The entry-wise union of `a` and `b`.
pub open spec fn join(a: Map<i64, Set<i64>>, b: Map<i64, Set<i64>>) -> Map<i64, Set<i64>> {
    Map::new(
        |k: i64| a.dom().contains(k) || b.dom().contains(k),
        |k: i64| row(a, k).union(row(b, k)),
    )
}

/// `m` after filing `v` under every key in `ks`.
pub open spec fn spread(m: Map<i64, Set<i64>>, ks: Set<i64>, v: i64) -> Map<i64, Set<i64>> {
    Map::new(
        |k: i64| m.dom().contains(k) || ks.contains(k),
        |k: i64|
            if ks.contains(k) {
                row(m, k).insert(v)
            } else {
                m[k]
            },
    )
}

/// Whether `v` is filed under `k`.
pub open spec fn holds(m: Map<i64, Set<i64>>, k: i64, v: i64) -> bool {
    row(m, k).contains(v)
}

/// Whether every key of `m` has at least one member.
pub open spec fn rows_inhabited(m: Map<i64, Set<i64>>) -> bool {
    forall|k: i64| #[trigger] m.dom().contains(k) ==> exists|v: i64| m[k].contains(v)
}

/// Whether `a` and `b` file the same pairs, one by key and member, the other
/// by member and key.
pub open spec fn dual(a: Map<i64, Set<i64>>, b: Map<i64, Set<i64>>) -> bool {
    forall|k: i64, v: i64| #[trigger] holds(a, k, v) <==> holds(b, v, k)
}

/// Filing a pair adds that pair and no other.
pub proof fn lemma_add_pair_holds(m: Map<i64, Set<i64>>, k: i64, v: i64)
    ensures
        forall|k2: i64, v2: i64| #[trigger]
            holds(add_pair(m, k, v), k2, v2) <==> holds(m, k2, v2) || (k2 == k && v2 == v),
        rows_inhabited(m) ==> rows_inhabited(add_pair(m, k, v)),
{
    assert forall|k2: i64| #[trigger]
        add_pair(m, k, v).dom().contains(k2) && rows_inhabited(m) implies exists|v2: i64|
        add_pair(m, k, v)[k2].contains(v2) by {
        if k2 == k {
            assert(add_pair(m, k, v)[k2].contains(v));
        } else {
            assert(m.dom().contains(k2));
            let v2 = choose|v2: i64| m[k2].contains(v2);
            assert(add_pair(m, k, v)[k2].contains(v2));
        }
    }
}

/// A join files the pairs of both maps and no other.
pub proof fn lemma_join_holds(a: Map<i64, Set<i64>>, b: Map<i64, Set<i64>>)
    ensures
        forall|k: i64, v: i64| #[trigger]
            holds(join(a, b), k, v) <==> holds(a, k, v) || holds(b, k, v),
        rows_inhabited(a) && rows_inhabited(b) ==> rows_inhabited(join(a, b)),
{
    assert forall|k: i64| #[trigger]
        join(a, b).dom().contains(k) && rows_inhabited(a) && rows_inhabited(b) implies exists|
        v: i64,
    |
        join(a, b)[k].contains(v) by {
        if a.dom().contains(k) {
            let v = choose|v: i64| a[k].contains(v);
            assert(join(a, b)[k].contains(v));
        } else {
            assert(b.dom().contains(k));
            let v = choose|v: i64| b[k].contains(v);
            assert(join(a, b)[k].contains(v));
        }
    }
}

/// Maps without empty rows that file the same pairs are the same map.
pub proof fn lemma_same_pairs(a: Map<i64, Set<i64>>, b: Map<i64, Set<i64>>)
    requires
        rows_inhabited(a),
        rows_inhabited(b),
        forall|k: i64, v: i64| holds(a, k, v) <==> holds(b, k, v),
    ensures
        a == b,
{
    assert forall|k: i64| a.dom().contains(k) <==> b.dom().contains(k) by {
        if a.dom().contains(k) {
            let v = choose|v: i64| a[k].contains(v);
            assert(holds(a, k, v));
            assert(holds(b, k, v));
        }
        if b.dom().contains(k) {
            let v = choose|v: i64| b[k].contains(v);
            assert(holds(b, k, v));
            assert(holds(a, k, v));
        }
    }
    assert forall|k: i64| a.dom().contains(k) implies a[k] =~= b[k] by {
        assert forall|v: i64| a[k].contains(v) <==> b[k].contains(v) by {
            assert(holds(a, k, v) <==> holds(b, k, v));
        }
    }
    assert(a =~= b);
}

/// A map from keys to non-empty sets, with its keys in increasing order.
pub struct SetIndex {
    keys: Vec<i64>,
    sets: Vec<SortedSet>,
}

impl View for SetIndex {
    type V = Map<i64, Set<i64>>;

    open spec fn view(&self) -> Map<i64, Set<i64>> {
        Map::new(
            |k: i64| self.keys().contains(k),
            |k: i64| self.rows()[self.keys().index_of(k)].to_set(),
        )
    }
}

impl SetIndex {
    /// The keys from smallest to greatest.
    pub closed spec fn keys(&self) -> Seq<i64> {
        self.keys@
    }

    /// For each key, in the order of `keys`, its members from smallest to greatest.
    pub closed spec fn rows(&self) -> Seq<Seq<i64>> {
        Seq::new(self.sets@.len(), |i: int| self.sets@[i].elements())
    }

    /// The representation invariant: increasing keys, and one non-empty
    /// increasing row for each of them.
    pub open spec fn wf(&self) -> bool {
        &&& increasing(self.keys())
        &&& self.rows().len() == self.keys().len()
        &&& forall|i: int|
            0 <= i < self.rows().len() ==> increasing(#[trigger] self.rows()[i])
                && self.rows()[i].len() > 0
    }

    /// How positions relate to the map that the index stands for.
    pub proof fn lemma_view(&self)
        requires
            self.wf(),
        ensures
            self@.dom() == self.keys().to_set(),
            self@.dom().finite(),
            self@.dom().len() == self.keys().len(),
            forall|i: int|
                0 <= i < self.keys().len() ==> self@.dom().contains(#[trigger] self.keys()[i])
                    && self@[self.keys()[i]] == self.rows()[i].to_set(),
            forall|k: i64| #[trigger]
                self@.dom().contains(k) ==> self@[k].finite() && self@[k].len() > 0,
            rows_inhabited(self@),
    {
        let keys = self.keys();
        lemma_increasing_distinct(keys);
        assert(self@.dom() =~= keys.to_set());
        assert forall|i: int| 0 <= i < keys.len() implies self@.dom().contains(#[trigger] keys[i])
            && self@[keys[i]] == self.rows()[i].to_set() by {
            keys.index_of_first_ensures(keys[i]);
            let j = keys.index_of(keys[i]);
            assert(keys.contains(keys[i]));
            assert(0 <= j < keys.len() && keys[j] == keys[i]);
            assert(j == i);
        }
        assert forall|k: i64| #[trigger] self@.dom().contains(k) implies self@[k].finite()
            && self@[k].len() > 0 by {
            let i = keys.index_of(k);
            assert(keys.contains(k));
            assert(0 <= i < keys.len() && keys[i] == k);
            lemma_increasing_distinct(self.rows()[i]);
        }
        assert forall|k: i64| #[trigger] self@.dom().contains(k) implies exists|v: i64|
            self@[k].contains(v) by {
            let i = keys.index_of(k);
            assert(keys.contains(k));
            assert(0 <= i < keys.len() && keys[i] == k);
            assert(self.rows()[i].to_set().contains(self.rows()[i][0]));
        }
    }

    /// The index with no entry.
    pub fn new() -> (index: SetIndex)
        ensures
            index.wf(),
            index@ == Map::<i64, Set<i64>>::empty(),
    {
        let index = SetIndex { keys: Vec::new(), sets: Vec::new() };
        assert(index@ =~= Map::<i64, Set<i64>>::empty());
        index
    }

    /// Number of keys.
    pub fn len(&self) -> (n: usize)
        requires
            self.wf(),
        ensures
            n == self.keys().len(),
            n == self@.dom().len(),
    {
        proof {
            self.lemma_view();
        }
        self.keys.len()
    }

    /// The key at position `i` of the increasing order.
    pub fn key_at(&self, i: usize) -> (k: i64)
        requires
            i < self.keys().len(),
        ensures
            k == self.keys()[i as int],
    {
        self.keys[i]
    }

    /// The members filed under the key at position `i`.
    pub fn set_at(&self, i: usize) -> (s: &SortedSet)
        requires
            self.wf(),
            i < self.keys().len(),
        ensures
            s.wf(),
            s.elements() == self.rows()[i as int],
            s@ == self@[self.keys()[i as int]],
    {
        proof {
            self.lemma_view();
            assert(self.rows()[i as int] == self.sets@[i as int].elements());
        }
        &self.sets[i]
    }

    /// Position of the first key that is not below `key`.
    pub fn first_at_least(&self, key: i64) -> (pos: usize)
        requires
            self.wf(),
        ensures
            parts_at(self.keys(), pos as int, key),
    {
        lower_bound(&self.keys, key)
    }

    /// Position of `key`, if it has an entry.
    pub fn position(&self, key: i64) -> (found: Option<usize>)
        requires
            self.wf(),
        ensures
            found is Some <==> self@.dom().contains(key),
            found matches Some(i) ==> i < self.keys().len() && self.keys()[i as int] == key,
    {
        let pos = lower_bound(&self.keys, key);
        if pos < self.keys.len() && self.keys[pos] == key {
            proof {
                lemma_found_at(self.keys(), pos as int, key);
            }
            Some(pos)
        } else {
            proof {
                lemma_insert_absent(self.keys(), pos as int, key);
            }
            None
        }
    }

    /// The members filed under `key`, if it has an entry.
    pub fn get(&self, key: i64) -> (found: Option<&SortedSet>)
        requires
            self.wf(),
        ensures
            found is Some <==> self@.dom().contains(key),
            found matches Some(s) ==> s.wf() && s@ == self@[key],
    {
        match self.position(key) {
            Some(i) => Some(self.set_at(i)),
            None => None,
        }
    }

    /// Files `value` under `key`; tells whether it was absent there before.
    pub fn insert(&mut self, key: i64, value: i64) -> (added: bool)
        requires
            old(self).wf(),
        ensures
            final(self).wf(),
            final(self)@ == add_pair(old(self)@, key, value),
            added == !row(old(self)@, key).contains(value),
    {
        proof {
            self.lemma_view();
        }
        let pos = lower_bound(&self.keys, key);
        if pos < self.keys.len() && self.keys[pos] == key {
            assert(old(self).rows()[pos as int] == old(self).sets@[pos as int].elements());
            let added = self.sets[pos].insert(value);
            proof {
                assert(self.keys() == old(self).keys());
                assert(self.rows()[pos as int] == self.sets@[pos as int].elements());
                assert forall|i: int| 0 <= i < self.rows().len() implies increasing(
                    #[trigger] self.rows()[i],
                ) && self.rows()[i].len() > 0 by {
                    if i != pos {
                        assert(self.rows()[i] == old(self).rows()[i]);
                    } else {
                        lemma_increasing_distinct(self.rows()[i]);
                        assert(self.rows()[i].to_set().contains(value));
                    }
                }
                self.lemma_view();
                assert(self@ =~= add_pair(old(self)@, key, value)) by {
                    assert forall|k: i64| self@.dom().contains(k) implies #[trigger] self@[k]
                        == add_pair(old(self)@, key, value)[k] by {
                        let i = self.keys().index_of(k);
                        assert(self.keys().contains(k));
                        assert(0 <= i < self.keys().len() && self.keys()[i] == k);
                        if i != pos {
                            assert(self.rows()[i] == old(self).rows()[i]);
                            assert(old(self).keys()[i] == k);
                        }
                    }
                }
            }
            added
        } else {
            proof {
                lemma_insert_absent(self.keys(), pos as int, key);
            }
            self.keys.insert(pos, key);
            self.sets.insert(pos, SortedSet::singleton(value));
            proof {
                let p = pos as int;
                let old_keys = old(self).keys();
                let old_rows = old(self).rows();
                assert(self.rows() =~= old_rows.insert(p, seq![value])) by {
                    assert forall|i: int| 0 <= i < self.rows().len() implies self.rows()[i]
                        == old_rows.insert(p, seq![value])[i] by {
                        if i < p {
                            assert(self.sets@[i] == old(self).sets@[i]);
                        } else if i > p {
                            assert(self.sets@[i] == old(self).sets@[i - 1]);
                        }
                    }
                }
                assert forall|i: int| 0 <= i < self.rows().len() implies increasing(
                    #[trigger] self.rows()[i],
                ) && self.rows()[i].len() > 0 by {
                    if i < p {
                        assert(self.rows()[i] == old_rows[i]);
                    } else if i > p {
                        assert(self.rows()[i] == old_rows[i - 1]);
                    }
                }
                self.lemma_view();
                assert(seq![value].to_set() =~= Set::<i64>::empty().insert(value)) by {
                    assert(seq![value][0] == value);
                }
                assert(self@ =~= add_pair(old(self)@, key, value)) by {
                    assert forall|k: i64| self@.dom().contains(k) implies #[trigger] self@[k]
                        == add_pair(old(self)@, key, value)[k] by {
                        let i = self.keys().index_of(k);
                        assert(self.keys().contains(k));
                        assert(0 <= i < self.keys().len() && self.keys()[i] == k);
                        if i < p {
                            assert(old_keys[i] == k);
                            assert(self.rows()[i] == old_rows[i]);
                        } else if i > p {
                            assert(old_keys[i - 1] == k);
                            assert(self.rows()[i] == old_rows[i - 1]);
                        }
                    }
                }
            }
            true
        }
    }

    /// Adds every entry of `other`, uniting the members filed under a shared key.
    pub fn merge(&mut self, other: &SetIndex)
        requires
            old(self).wf(),
            other.wf(),
        ensures
            final(self).wf(),
            final(self)@ == join(old(self)@, other@),
    {
        let ghost goal = join(old(self)@, other@);
        let n: usize = self.keys.len();
        let m: usize = other.keys.len();
        let mut out_keys: Vec<i64> = Vec::new();
        let mut out_sets: Vec<SortedSet> = Vec::new();
        let mut i: usize = 0;
        let mut j: usize = 0;
        assert forall|k: int| 0 <= k < n implies (#[trigger] self.sets@[k]).elements()
            == old(self).rows()[k] by {}
        while i < n || j < m
            invariant
                n == self.keys@.len(),
                m == other.keys@.len(),
                old(self).wf(),
                other.wf(),
                self.keys@ == old(self).keys(),
                self.sets@.len() == n,
                forall|k: int|
                    i <= k < n ==> (#[trigger] self.sets@[k]).elements() == old(self).rows()[k],
                merged_up_to(self.keys@, other.keys@, out_keys@, i as int, j as int),
                out_sets@.len() == out_keys@.len(),
                goal == join(old(self)@, other@),
                forall|p: int|
                    0 <= p < out_sets@.len() ==> (#[trigger] out_sets@[p]).wf()
                        && out_sets@[p].elements().len() > 0 && out_sets@[p]@ == goal[out_keys@[p]],
            decreases (n - i) + (m - j),
        {
            proof {
                old(self).lemma_view();
                other.lemma_view();
                lemma_merge_step(self.keys@, other.keys@, out_keys@, i as int, j as int);
                if i < n {
                    assert(old(self)@.dom().contains(old(self).keys()[i as int]));
                    assert(self.sets@[i as int].elements() == old(self).rows()[i as int]);
                }
                if j < m {
                    assert(other.rows()[j as int] == other.sets@[j as int].elements());
                    assert(other@.dom().contains(other.keys()[j as int]));
                }
            }
            let take_left: bool = j >= m || (i < n && self.keys[i] <= other.keys[j]);
            let take_right: bool = i >= n || (j < m && other.keys[j] <= self.keys[i]);
            let key: i64 = if take_left {
                self.keys[i]
            } else {
                other.keys[j]
            };
            let ghost sets_before = self.sets@;
            let mut set = if take_left {
                self.sets[i].take()
            } else {
                other.sets[j].duplicate()
            };
            if take_left && take_right {
                set.union_with(&other.sets[j]);
            }
            proof {
                set.lemma_size();
                if take_left && take_right {
                    assert(set@.contains(old(self).rows()[i as int][0]));
                }
                assert(set@ =~= goal[key]);
                assert forall|k: int| i + 1 <= k < n implies (#[trigger] self.sets@[k]).elements()
                    == old(self).rows()[k] by {
                    assert(self.sets@[k] == sets_before[k]);
                }
            }
            out_keys.push(key);
            out_sets.push(set);
            if take_left {
                i = i + 1;
            }
            if take_right {
                j = j + 1;
            }
        }
        proof {
            lemma_merge_done(self.keys@, other.keys@, out_keys@);
        }
        self.keys = out_keys;
        self.sets = out_sets;
        proof {
            assert forall|p: int| 0 <= p < self.rows().len() implies increasing(
                #[trigger] self.rows()[p],
            ) && self.rows()[p].len() > 0 by {
                assert(self.sets@[p].wf());
            }
            self.lemma_view();
            assert(self@ =~= goal) by {
                assert forall|k: i64| self@.dom().contains(k) implies #[trigger] self@[k]
                    == goal[k] by {
                    let p = self.keys().index_of(k);
                    assert(self.keys().contains(k));
                    assert(0 <= p < self.keys().len() && self.keys()[p] == k);
                    assert(self.rows()[p] == self.sets@[p].elements());
                }
            }
        }
    }

    /// Files `value` under every key in `keys`, in one pass over both.
    pub fn file_under_each(&mut self, keys: &SortedSet, value: i64)
        requires
            old(self).wf(),
            keys.wf(),
        ensures
            final(self).wf(),
            final(self)@ == spread(old(self)@, keys@, value),
            forall|k: i64, v: i64| #[trigger]
                holds(final(self)@, k, v) <==> holds(old(self)@, k, v) || (keys@.contains(k) && v
                    == value),
    {
        proof {
            self.lemma_view();
        }
        let ghost goal = spread(old(self)@, keys@, value);
        let n: usize = self.keys.len();
        let m: usize = keys.len();
        let mut out_keys: Vec<i64> = Vec::new();
        let mut out_sets: Vec<SortedSet> = Vec::new();
        let mut i: usize = 0;
        let mut j: usize = 0;
        assert forall|k: int| 0 <= k < n implies (#[trigger] self.sets@[k]).elements()
            == old(self).rows()[k] by {}
        while i < n || j < m
            invariant
                n == self.keys@.len(),
                m == keys.elements().len(),
                old(self).wf(),
                keys.wf(),
                self.keys@ == old(self).keys(),
                self.sets@.len() == n,
                forall|k: int|
                    i <= k < n ==> (#[trigger] self.sets@[k]).elements() == old(self).rows()[k],
                merged_up_to(self.keys@, keys.elements(), out_keys@, i as int, j as int),
                out_sets@.len() == out_keys@.len(),
                goal == spread(old(self)@, keys@, value),
                forall|p: int|
                    0 <= p < out_sets@.len() ==> (#[trigger] out_sets@[p]).wf()
                        && out_sets@[p].elements().len() > 0 && out_sets@[p]@ == goal[out_keys@[p]],
            decreases (n - i) + (m - j),
        {
            proof {
                old(self).lemma_view();
                lemma_merge_step(self.keys@, keys.elements(), out_keys@, i as int, j as int);
                if i < n {
                    assert(old(self)@.dom().contains(old(self).keys()[i as int]));
                    assert(self.sets@[i as int].elements() == old(self).rows()[i as int]);
                }
                if j < m {
                    assert(keys@.contains(keys.elements()[j as int]));
                }
            }
            let take_left: bool = j >= m || (i < n && self.keys[i] <= keys.get(j));
            let take_right: bool = i >= n || (j < m && keys.get(j) <= self.keys[i]);
            let key: i64 = if take_left {
                self.keys[i]
            } else {
                keys.get(j)
            };
            let ghost sets_before = self.sets@;
            let mut set = if take_left {
                self.sets[i].take()
            } else {
                SortedSet::new()
            };
            if take_right {
                set.insert(value);
            }
            proof {
                set.lemma_size();
                if take_right {
                    assert(set@.contains(value));
                }
                assert(set@ =~= goal[key]);
                assert forall|k: int| i + 1 <= k < n implies (#[trigger] self.sets@[k]).elements()
                    == old(self).rows()[k] by {
                    assert(self.sets@[k] == sets_before[k]);
                }
            }
            out_keys.push(key);
            out_sets.push(set);
            if take_left {
                i = i + 1;
            }
            if take_right {
                j = j + 1;
            }
        }
        proof {
            lemma_merge_done(self.keys@, keys.elements(), out_keys@);
        }
        self.keys = out_keys;
        self.sets = out_sets;
        proof {
            assert forall|p: int| 0 <= p < self.rows().len() implies increasing(
                #[trigger] self.rows()[p],
            ) && self.rows()[p].len() > 0 by {
                assert(self.sets@[p].wf());
            }
            self.lemma_view();
            assert(self@ =~= goal) by {
                assert forall|k: i64| self@.dom().contains(k) implies #[trigger] self@[k]
                    == goal[k] by {
                    let p = self.keys().index_of(k);
                    assert(self.keys().contains(k));
                    assert(0 <= p < self.keys().len() && self.keys()[p] == k);
                    assert(self.rows()[p] == self.sets@[p].elements());
                }
            }
        }
    }
}

} // verus!
