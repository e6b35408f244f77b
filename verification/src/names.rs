//! The latest known display name of each editor.
//!
//! An entry holds the time at which a name was seen and the name. A later
//! sighting replaces the entry only if it is not older and carries another
//! name; among sightings of one time with different names the last one filed
//! wins, so the order of filing shows in the result.

use crate::sorted_set::{
    increasing, lemma_found_at, lemma_increasing_distinct, lemma_insert_absent, lemma_merge_done,
    lemma_merge_step, lower_bound, merged_up_to,
};
use vstd::prelude::*;

verus! {

/// A sighting of a name: the time in seconds, and the name.
pub type Sighting = (i64, Seq<char>);

/// Whether `incoming` replaces `stored`: it is not older and names the editor otherwise.
pub open spec fn supersedes(stored: Sighting, incoming: Sighting) -> bool {
    stored.0 <= incoming.0 && stored.1 != incoming.1
}

/// The sighting kept of `stored` and `incoming`.
pub open spec fn settle(stored: Sighting, incoming: Sighting) -> Sighting {
    if supersedes(stored, incoming) {
        incoming
    } else {
        stored
    }
}

/// `m` after filing a sighting of `editor`.
pub open spec fn file_sighting(m: Map<i64, Sighting>, editor: i64, seen: Sighting) -> Map<
    i64,
    Sighting,
> {
    if m.dom().contains(editor) {
        m.insert(editor, settle(m[editor], seen))
    } else {
        m.insert(editor, seen)
    }
}

/// `a` after filing every entry of `b`.
pub open spec fn join_names(a: Map<i64, Sighting>, b: Map<i64, Sighting>) -> Map<i64, Sighting> {
    Map::new(
        |k: i64| a.dom().contains(k) || b.dom().contains(k),
        |k: i64|
            if a.dom().contains(k) && b.dom().contains(k) {
                settle(a[k], b[k])
            } else if a.dom().contains(k) {
                a[k]
            } else {
                b[k]
            },
    )
}

/// Decides whether a sighting of `name` at `stamp` replaces the stored
/// sighting of `stored_name` at `stored_stamp`.
pub fn replaces(stored_stamp: i64, stored_name: &String, stamp: i64, name: &String) -> (yes: bool)
    ensures
        yes == supersedes((stored_stamp, stored_name@), (stamp, name@)),
{
    let same_name: bool = *stored_name == *name;
    stored_stamp <= stamp && !same_name
}

/// A map from editor to the sighting kept, with the editors in increasing order.
pub struct NameIndex {
    keys: Vec<i64>,
    stamps: Vec<i64>,
    names: Vec<String>,
}

impl View for NameIndex {
    type V = Map<i64, Sighting>;

    open spec fn view(&self) -> Map<i64, Sighting> {
        Map::new(
            |k: i64| self.keys().contains(k),
            |k: i64| self.sightings()[self.keys().index_of(k)],
        )
    }
}

impl NameIndex {
    /// The editors from smallest to greatest.
    pub closed spec fn keys(&self) -> Seq<i64> {
        self.keys@
    }

    /// For each editor, in the order of `keys`, the sighting kept.
    pub closed spec fn sightings(&self) -> Seq<Sighting> {
        Seq::new(self.keys@.len(), |i: int| (self.stamps@[i], self.names@[i]@))
    }

    /// The representation invariant: increasing editors, one sighting for each.
    pub closed spec fn wf(&self) -> bool {
        &&& increasing(self.keys@)
        &&& self.stamps@.len() == self.keys@.len()
        &&& self.names@.len() == self.keys@.len()
    }

    /// How positions relate to the map that the index stands for.
    pub proof fn lemma_view(&self)
        requires
            self.wf(),
        ensures
            increasing(self.keys()),
            self.sightings().len() == self.keys().len(),
            self@.dom() == self.keys().to_set(),
            self@.dom().finite(),
            self@.dom().len() == self.keys().len(),
            forall|i: int|
                0 <= i < self.keys().len() ==> self@.dom().contains(#[trigger] self.keys()[i])
                    && self@[self.keys()[i]] == self.sightings()[i],
    {
        let keys = self.keys();
        lemma_increasing_distinct(keys);
        assert(self@.dom() =~= keys.to_set());
        assert forall|i: int| 0 <= i < keys.len() implies self@.dom().contains(#[trigger] keys[i])
            && self@[keys[i]] == self.sightings()[i] by {
            let j = keys.index_of(keys[i]);
            assert(keys.contains(keys[i]));
            assert(0 <= j < keys.len() && keys[j] == keys[i]);
            assert(j == i);
        }
    }

    /// The index with no entry.
    pub fn new() -> (index: NameIndex)
        ensures
            index.wf(),
            index@ == Map::<i64, Sighting>::empty(),
    {
        let index = NameIndex { keys: Vec::new(), stamps: Vec::new(), names: Vec::new() };
        assert(index@ =~= Map::<i64, Sighting>::empty());
        index
    }

    /// Number of editors.
    pub fn len(&self) -> (n: usize)
        requires
            self.wf(),
        ensures
            n == self@.dom().len(),
    {
        proof {
            self.lemma_view();
        }
        self.keys.len()
    }

    /// The sighting kept for `editor`, if there is one.
    pub fn get(&self, editor: i64) -> (found: Option<(i64, &String)>)
        requires
            self.wf(),
        ensures
            found is Some <==> self@.dom().contains(editor),
            found matches Some((stamp, name)) ==> self@[editor] == (stamp, name@),
    {
        proof {
            self.lemma_view();
        }
        let pos = lower_bound(&self.keys, editor);
        if pos < self.keys.len() && self.keys[pos] == editor {
            proof {
                lemma_found_at(self.keys(), pos as int, editor);
            }
            Some((self.stamps[pos], &self.names[pos]))
        } else {
            proof {
                lemma_insert_absent(self.keys(), pos as int, editor);
            }
            None
        }
    }

    /// Files a sighting of `editor`.
    pub fn record(&mut self, editor: i64, stamp: i64, name: &String)
        requires
            old(self).wf(),
        ensures
            final(self).wf(),
            final(self)@ == file_sighting(old(self)@, editor, (stamp, name@)),
    {
        proof {
            self.lemma_view();
        }
        let ghost seen: Sighting = (stamp, name@);
        let pos = lower_bound(&self.keys, editor);
        if pos < self.keys.len() && self.keys[pos] == editor {
            assert(old(self).keys()[pos as int] == editor);
            if replaces(self.stamps[pos], &self.names[pos], stamp, name) {
                self.stamps.set(pos, stamp);
                self.names.set(pos, name.clone());
            }
            proof {
                self.lemma_view();
                assert(self.keys() == old(self).keys());
                assert(self@ =~= file_sighting(old(self)@, editor, seen)) by {
                    assert forall|k: i64| self@.dom().contains(k) implies #[trigger] self@[k]
                        == file_sighting(old(self)@, editor, seen)[k] by {
                        let i = self.keys().index_of(k);
                        assert(self.keys().contains(k));
                        assert(0 <= i < self.keys().len() && self.keys()[i] == k);
                        assert(old(self).keys()[i] == k);
                        if i != pos {
                            assert(self.sightings()[i] == old(self).sightings()[i]);
                        }
                    }
                }
            }
        } else {
            proof {
                lemma_insert_absent(self.keys(), pos as int, editor);
            }
            self.keys.insert(pos, editor);
            self.stamps.insert(pos, stamp);
            self.names.insert(pos, name.clone());
            proof {
                let p = pos as int;
                let old_keys = old(self).keys();
                let old_seen = old(self).sightings();
                self.lemma_view();
                assert(self.sightings() =~= old_seen.insert(p, seen));
                assert(self@ =~= file_sighting(old(self)@, editor, seen)) by {
                    assert forall|k: i64| self@.dom().contains(k) implies #[trigger] self@[k]
                        == file_sighting(old(self)@, editor, seen)[k] by {
                        let i = self.keys().index_of(k);
                        assert(self.keys().contains(k));
                        assert(0 <= i < self.keys().len() && self.keys()[i] == k);
                        if i < p {
                            assert(old_keys[i] == k);
                            assert(self.sightings()[i] == old_seen[i]);
                        } else if i > p {
                            assert(old_keys[i - 1] == k);
                            assert(self.sightings()[i] == old_seen[i - 1]);
                        }
                    }
                }
            }
        }
    }

    /// Files every entry of `other`.
    pub fn merge(&mut self, other: &NameIndex)
        requires
            old(self).wf(),
            other.wf(),
        ensures
            final(self).wf(),
            final(self)@ == join_names(old(self)@, other@),
    {
        proof {
            self.lemma_view();
            other.lemma_view();
        }
        let n: usize = self.keys.len();
        let m: usize = other.keys.len();
        let mut keys: Vec<i64> = Vec::new();
        let mut stamps: Vec<i64> = Vec::new();
        let mut names: Vec<String> = Vec::new();
        let mut i: usize = 0;
        let mut j: usize = 0;
        while i < n || j < m
            invariant
                n == self.keys@.len(),
                m == other.keys@.len(),
                *self == *old(self),
                self.wf(),
                other.wf(),
                merged_up_to(self.keys@, other.keys@, keys@, i as int, j as int),
                stamps@.len() == keys@.len(),
                names@.len() == keys@.len(),
                forall|p: int|
                    0 <= p < keys@.len() ==> (stamps@[p], names@[p]@) == join_names(
                        self@,
                        other@,
                    )[#[trigger] keys@[p]],
            decreases (n - i) + (m - j),
        {
            proof {
                self.lemma_view();
                other.lemma_view();
                lemma_merge_step(self.keys@, other.keys@, keys@, i as int, j as int);
                if i < n {
                    assert(self@.dom().contains(self.keys()[i as int]));
                    assert(self@[self.keys()[i as int]] == self.sightings()[i as int]);
                }
                if j < m {
                    assert(other@.dom().contains(other.keys()[j as int]));
                    assert(other@[other.keys()[j as int]] == other.sightings()[j as int]);
                }
            }
            let take_left: bool = j >= m || (i < n && self.keys[i] <= other.keys[j]);
            let take_right: bool = i >= n || (j < m && other.keys[j] <= self.keys[i]);
            let key: i64 = if take_left {
                self.keys[i]
            } else {
                other.keys[j]
            };
            let from_other: bool = if take_left && take_right {
                replaces(self.stamps[i], &self.names[i], other.stamps[j], &other.names[j])
            } else {
                take_right
            };
            let stamp: i64 = if from_other {
                other.stamps[j]
            } else {
                self.stamps[i]
            };
            let name: String = if from_other {
                other.names[j].clone()
            } else {
                self.names[i].clone()
            };
            proof {
                assert((stamp, name@) == join_names(self@, other@)[key]);
            }
            keys.push(key);
            stamps.push(stamp);
            names.push(name);
            if take_left {
                i = i + 1;
            }
            if take_right {
                j = j + 1;
            }
        }
        proof {
            lemma_merge_done(self.keys@, other.keys@, keys@);
        }
        let ghost before = *self;
        self.keys = keys;
        self.stamps = stamps;
        self.names = names;
        proof {
            self.lemma_view();
            assert(self@ =~= join_names(before@, other@)) by {
                assert forall|k: i64| self@.dom().contains(k) implies #[trigger] self@[k]
                    == join_names(before@, other@)[k] by {
                    let p = self.keys().index_of(k);
                    assert(self.keys().contains(k));
                    assert(0 <= p < self.keys().len() && self.keys()[p] == k);
                }
            }
        }
    }
}

} // verus!
