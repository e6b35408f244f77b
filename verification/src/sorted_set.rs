//! Finite sets of integer keys, stored as strictly increasing vectors.

use vstd::prelude::*;

verus! {

/// Whether every element of `s` is smaller than all elements after it.
pub open spec fn increasing(s: Seq<i64>) -> bool {
    forall|i: int, j: int| 0 <= i < j < s.len() ==> s[i] < s[j]
}

/// An increasing sequence holds no element twice and is as long as its set of elements.
pub proof fn lemma_increasing_distinct(s: Seq<i64>)
    requires
        increasing(s),
    ensures
        s.no_duplicates(),
        s.to_set().finite(),
        s.to_set().len() == s.len(),
{
    assert(s.no_duplicates()) by {
        assert forall|i: int, j: int| 0 <= i < s.len() && 0 <= j < s.len() && i != j implies s[i]
            != s[j] by {
            if i < j {
                assert(s[i] < s[j]);
            } else {
                assert(s[j] < s[i]);
            }
        }
    }
    s.unique_seq_to_set();
}

/// Two increasing sequences with the same elements are the same sequence.
pub proof fn lemma_increasing_unique(a: Seq<i64>, b: Seq<i64>)
    requires
        increasing(a),
        increasing(b),
        a.to_set() == b.to_set(),
    ensures
        a == b,
    decreases a.len(),
{
    lemma_increasing_distinct(a);
    lemma_increasing_distinct(b);
    if a.len() == 0 {
        assert(a =~= b);
    } else {
        let n = a.len() - 1;
        let top = a[n];
        assert(a.to_set().contains(top));
        assert(b.contains(top));
        let k = choose|k: int| 0 <= k < b.len() && b[k] == top;
        // `top` is the greatest element of both sequences, so it closes both.
        if k < b.len() - 1 {
            let other = b[b.len() - 1];
            assert(b.to_set().contains(other));
            assert(a.contains(other));
            let m = choose|m: int| 0 <= m < a.len() && a[m] == other;
            assert(b[k] < b[b.len() - 1]);
            if m < n {
                assert(a[m] < a[n]);
            }
        }
        let a0 = a.drop_last();
        let b0 = b.drop_last();
        assert(a0.to_set() =~= b0.to_set()) by {
            assert forall|x: i64| a0.to_set().contains(x) <==> b0.to_set().contains(x) by {
                if a0.contains(x) {
                    let i = choose|i: int| 0 <= i < a0.len() && a0[i] == x;
                    assert(a[i] == x);
                    assert(a[i] < a[n]);
                    assert(a.to_set().contains(x));
                    assert(b.contains(x));
                    let j = choose|j: int| 0 <= j < b.len() && b[j] == x;
                    assert(j < b.len() - 1);
                    assert(b0[j] == x);
                }
                if b0.contains(x) {
                    let j = choose|j: int| 0 <= j < b0.len() && b0[j] == x;
                    assert(b[j] == x);
                    assert(b[j] < b[b.len() - 1]);
                    assert(b.to_set().contains(x));
                    assert(a.contains(x));
                    let i = choose|i: int| 0 <= i < a.len() && a[i] == x;
                    assert(i < n);
                    assert(a0[i] == x);
                }
            }
        }
        lemma_increasing_unique(a0, b0);
        assert(a =~= a0.push(top));
        assert(b =~= b0.push(top));
    }
}

/// The members of a finite set from smallest to greatest.
pub open spec fn ascending(s: Set<i64>) -> Seq<i64> {
    choose|q: Seq<i64>| increasing(q) && q.to_set() == s
}

/// An increasing sequence is the ascending order of its own elements.
pub proof fn lemma_ascending(q: Seq<i64>)
    requires
        increasing(q),
    ensures
        ascending(q.to_set()) == q,
{
    let r = ascending(q.to_set());
    assert(increasing(r) && r.to_set() == q.to_set());
    lemma_increasing_unique(r, q);
}

/// Whether `pos` parts the elements of `s` below `key` from those not below it.
pub open spec fn parts_at(s: Seq<i64>, pos: int, key: i64) -> bool {
    &&& 0 <= pos <= s.len()
    &&& forall|i: int| 0 <= i < pos ==> s[i] < key
    &&& forall|i: int| pos <= i < s.len() ==> key <= s[i]
}

/// Where the element at the parting position is not `key`, `key` is absent;
/// putting it there keeps the order and adds `key` alone.
pub proof fn lemma_insert_absent(s: Seq<i64>, pos: int, key: i64)
    requires
        increasing(s),
        parts_at(s, pos, key),
        pos == s.len() || s[pos] != key,
    ensures
        !s.contains(key),
        increasing(s.insert(pos, key)),
        forall|x: i64| s.insert(pos, key).contains(x) <==> s.contains(x) || x == key,
{
    let after = s.insert(pos, key);
    assert(!s.contains(key)) by {
        if s.contains(key) {
            let i = choose|i: int| 0 <= i < s.len() && s[i] == key;
            assert(s[pos] <= s[i]);
        }
    }
    assert forall|i: int, j: int| 0 <= i < j < after.len() implies after[i] < after[j] by {
        if j < pos {
            assert(after[i] == s[i] && after[j] == s[j]);
        } else if j == pos {
            assert(after[i] == s[i]);
        } else if i < pos {
            assert(after[i] == s[i] && after[j] == s[j - 1]);
        } else if i == pos {
            assert(after[j] == s[j - 1]);
            assert(s[pos] <= s[j - 1]);
        } else {
            assert(after[i] == s[i - 1] && after[j] == s[j - 1]);
        }
    }
    assert forall|x: i64| after.contains(x) <==> s.contains(x) || x == key by {
        if after.contains(x) {
            let i = choose|i: int| 0 <= i < after.len() && after[i] == x;
            if i < pos {
                assert(s[i] == x);
            } else if i > pos {
                assert(s[i - 1] == x);
            }
        }
        if s.contains(x) {
            let i = choose|i: int| 0 <= i < s.len() && s[i] == x;
            if i < pos {
                assert(after[i] == x);
            } else {
                assert(after[i + 1] == x);
            }
        }
        if x == key {
            assert(after[pos] == x);
        }
    }
}

/// Where the element at the parting position is `key`, it is the only place of `key`.
pub proof fn lemma_found_at(s: Seq<i64>, pos: int, key: i64)
    requires
        increasing(s),
        0 <= pos < s.len(),
        s[pos] == key,
    ensures
        s.contains(key),
        forall|i: int| 0 <= i < s.len() && s[i] == key ==> i == pos,
{
    assert forall|i: int| 0 <= i < s.len() && s[i] == key implies i == pos by {
        if i < pos {
            assert(s[i] < s[pos]);
        } else if pos < i {
            assert(s[pos] < s[i]);
        }
    }
}

/// Position of the first element of `keys` that is not below `key`.
pub fn lower_bound(keys: &Vec<i64>, key: i64) -> (pos: usize)
    requires
        increasing(keys@),
    ensures
        parts_at(keys@, pos as int, key),
{
    let mut lo: usize = 0;
    let mut hi: usize = keys.len();
    while lo < hi
        invariant
            lo <= hi <= keys@.len(),
            increasing(keys@),
            forall|i: int| 0 <= i < lo ==> keys@[i] < key,
            forall|i: int| hi <= i < keys@.len() ==> key <= keys@[i],
        decreases hi - lo,
    {
        let mid: usize = lo + (hi - lo) / 2;
        if keys[mid] < key {
            lo = mid + 1;
        } else {
            hi = mid;
        }
    }
    lo
}

/// Whether `x` stands among the first `n` elements of `s`.
pub open spec fn in_prefix(s: Seq<i64>, n: int, x: i64) -> bool {
    exists|k: int| 0 <= k < n && k < s.len() && s[k] == x
}

/// The state of a merge of `a` and `b` that has consumed `i` elements of `a` and `j` of `b`:
/// `out` holds exactly the consumed elements, in increasing order and below
/// the next element of either input.
pub open spec fn merged_up_to(a: Seq<i64>, b: Seq<i64>, out: Seq<i64>, i: int, j: int) -> bool {
    &&& 0 <= i <= a.len()
    &&& 0 <= j <= b.len()
    &&& increasing(out)
    &&& forall|k: int| 0 <= k < out.len() && i < a.len() ==> out[k] < a[i]
    &&& forall|k: int| 0 <= k < out.len() && j < b.len() ==> out[k] < b[j]
    &&& forall|x: i64| out.contains(x) <==> in_prefix(a, i, x) || in_prefix(b, j, x)
}

/// Whether a merge step takes the next element of `a`.
pub open spec fn takes_left(a: Seq<i64>, b: Seq<i64>, i: int, j: int) -> bool {
    j >= b.len() || (i < a.len() && a[i] <= b[j])
}

/// Whether a merge step takes the next element of `b`.
pub open spec fn takes_right(a: Seq<i64>, b: Seq<i64>, i: int, j: int) -> bool {
    i >= a.len() || (j < b.len() && b[j] <= a[i])
}

/// The element that a merge step appends.
pub open spec fn taken(a: Seq<i64>, b: Seq<i64>, i: int, j: int) -> i64 {
    if takes_left(a, b, i, j) {
        a[i]
    } else {
        b[j]
    }
}

/// Appending the smaller of the two next elements, and stepping past it in
/// each input that offers it, keeps the merge state.
pub proof fn lemma_merge_step(a: Seq<i64>, b: Seq<i64>, out: Seq<i64>, i: int, j: int)
    requires
        increasing(a),
        increasing(b),
        merged_up_to(a, b, out, i, j),
        i < a.len() || j < b.len(),
    ensures
        merged_up_to(
            a,
            b,
            out.push(taken(a, b, i, j)),
            if takes_left(a, b, i, j) {
                i + 1
            } else {
                i
            },
            if takes_right(a, b, i, j) {
                j + 1
            } else {
                j
            },
        ),
        takes_left(a, b, i, j) || takes_right(a, b, i, j),
        !out.contains(taken(a, b, i, j)),
        takes_left(a, b, i, j) && !takes_right(a, b, i, j) ==> !b.contains(a[i]),
        takes_right(a, b, i, j) && !takes_left(a, b, i, j) ==> !a.contains(b[j]),
        takes_left(a, b, i, j) && takes_right(a, b, i, j) ==> a[i] == b[j],
{
    let left = takes_left(a, b, i, j);
    let right = takes_right(a, b, i, j);
    let v = taken(a, b, i, j);
    let next = out.push(v);
    let i1 = if left {
        i + 1
    } else {
        i
    };
    let j1 = if right {
        j + 1
    } else {
        j
    };
    assert(!out.contains(v)) by {
        if out.contains(v) {
            let k = choose|k: int| 0 <= k < out.len() && out[k] == v;
            if left {
                assert(out[k] < a[i]);
            } else {
                assert(out[k] < b[j]);
            }
        }
    }
    if left && !right {
        assert(!b.contains(a[i])) by {
            if b.contains(a[i]) {
                let w = choose|w: int| 0 <= w < b.len() && b[w] == a[i];
                if w < j {
                    assert(in_prefix(b, j, a[i]));
                } else if w > j {
                    assert(b[j] < b[w]);
                }
            }
        }
    }
    if right && !left {
        assert(!a.contains(b[j])) by {
            if a.contains(b[j]) {
                let w = choose|w: int| 0 <= w < a.len() && a[w] == b[j];
                if w < i {
                    assert(in_prefix(a, i, b[j]));
                } else if w > i {
                    assert(a[i] < a[w]);
                }
            }
        }
    }
    assert(increasing(next)) by {
        assert forall|p: int, q: int| 0 <= p < q < next.len() implies next[p] < next[q] by {
            if q < out.len() {
                assert(next[p] == out[p] && next[q] == out[q]);
            } else {
                assert(next[p] == out[p]);
            }
        }
    }
    assert forall|k: int| 0 <= k < next.len() && i1 < a.len() implies next[k] < a[i1] by {
        if left {
            assert(a[i] < a[i1]);
        }
        if k < out.len() {
            assert(next[k] == out[k]);
        }
    }
    assert forall|k: int| 0 <= k < next.len() && j1 < b.len() implies next[k] < b[j1] by {
        if right {
            assert(b[j] < b[j1]);
        }
        if k < out.len() {
            assert(next[k] == out[k]);
        }
    }
    assert forall|x: i64| next.contains(x) <==> in_prefix(a, i1, x) || in_prefix(b, j1, x) by {
        if next.contains(x) {
            let k = choose|k: int| 0 <= k < next.len() && next[k] == x;
            if k < out.len() {
                assert(out[k] == x);
                assert(out.contains(x));
                if in_prefix(a, i, x) {
                    let w = choose|w: int| 0 <= w < i && w < a.len() && a[w] == x;
                    assert(0 <= w < i1 && a[w] == x);
                } else {
                    let w = choose|w: int| 0 <= w < j && w < b.len() && b[w] == x;
                    assert(0 <= w < j1 && b[w] == x);
                }
            } else {
                if left {
                    assert(0 <= i < i1 && a[i] == x);
                } else {
                    assert(0 <= j < j1 && b[j] == x);
                }
            }
        }
        if in_prefix(a, i1, x) {
            let w = choose|w: int| 0 <= w < i1 && w < a.len() && a[w] == x;
            if w < i {
                assert(in_prefix(a, i, x));
                assert(out.contains(x));
                let k = choose|k: int| 0 <= k < out.len() && out[k] == x;
                assert(next[k] == x);
            } else {
                assert(next[out.len() as int] == x);
            }
        }
        if in_prefix(b, j1, x) {
            let w = choose|w: int| 0 <= w < j1 && w < b.len() && b[w] == x;
            if w < j {
                assert(in_prefix(b, j, x));
                assert(out.contains(x));
                let k = choose|k: int| 0 <= k < out.len() && out[k] == x;
                assert(next[k] == x);
            } else {
                assert(next[out.len() as int] == x);
            }
        }
    }
}

/// A merge that has consumed both inputs holds the union of their elements.
pub proof fn lemma_merge_done(a: Seq<i64>, b: Seq<i64>, out: Seq<i64>)
    requires
        merged_up_to(a, b, out, a.len() as int, b.len() as int),
    ensures
        increasing(out),
        out.to_set() == a.to_set().union(b.to_set()),
        forall|x: i64| out.contains(x) <==> a.contains(x) || b.contains(x),
{
    assert forall|x: i64| out.contains(x) <==> a.contains(x) || b.contains(x) by {
        if a.contains(x) {
            let w = choose|w: int| 0 <= w < a.len() && a[w] == x;
            assert(in_prefix(a, a.len() as int, x));
        }
        if b.contains(x) {
            let w = choose|w: int| 0 <= w < b.len() && b[w] == x;
            assert(in_prefix(b, b.len() as int, x));
        }
    }
    assert(out.to_set() =~= a.to_set().union(b.to_set()));
}

/// A finite set of integer keys.
pub struct SortedSet {
    items: Vec<i64>,
}

impl View for SortedSet {
    type V = Set<i64>;

    open spec fn view(&self) -> Set<i64> {
        self.elements().to_set()
    }
}

impl SortedSet {
    /// The elements from smallest to greatest.
    pub closed spec fn elements(&self) -> Seq<i64> {
        self.items@
    }

    /// The representation invariant: the elements are stored in increasing order.
    pub open spec fn wf(&self) -> bool {
        increasing(self.elements())
    }

    /// A well-formed set is finite, has as many members as stored elements,
    /// and stores them in ascending order.
    pub proof fn lemma_size(&self)
        requires
            self.wf(),
        ensures
            self@.finite(),
            self@.len() == self.elements().len(),
            self.elements().no_duplicates(),
            self.elements() == ascending(self@),
    {
        lemma_increasing_distinct(self.elements());
        lemma_ascending(self.elements());
    }

    /// The empty set.
    pub fn new() -> (s: SortedSet)
        ensures
            s.wf(),
            s@ == Set::<i64>::empty(),
            s.elements() == Seq::<i64>::empty(),
    {
        let s = SortedSet { items: Vec::new() };
        assert(s.elements().to_set() =~= Set::<i64>::empty());
        s
    }

    /// The set with the one member `x`.
    pub fn singleton(x: i64) -> (s: SortedSet)
        ensures
            s.wf(),
            s@ == set![x],
            s.elements() == seq![x],
    {
        let mut items: Vec<i64> = Vec::new();
        items.push(x);
        let s = SortedSet { items };
        assert(s.elements() =~= seq![x]);
        assert(s.elements().to_set() =~= set![x]) by {
            assert(s.elements()[0] == x);
        }
        s
    }

    /// Number of members.
    pub fn len(&self) -> (n: usize)
        requires
            self.wf(),
        ensures
            n == self@.len(),
            n == self.elements().len(),
    {
        proof {
            self.lemma_size();
        }
        self.items.len()
    }

    /// The member at position `i` of the increasing order.
    pub fn get(&self, i: usize) -> (x: i64)
        requires
            i < self.elements().len(),
        ensures
            x == self.elements()[i as int],
    {
        self.items[i]
    }

    /// Whether `x` is a member.
    pub fn contains(&self, x: i64) -> (found: bool)
        requires
            self.wf(),
        ensures
            found == self@.contains(x),
    {
        let pos = lower_bound(&self.items, x);
        if pos < self.items.len() && self.items[pos] == x {
            proof {
                lemma_found_at(self.elements(), pos as int, x);
            }
            true
        } else {
            proof {
                lemma_insert_absent(self.elements(), pos as int, x);
            }
            false
        }
    }

    /// Adds `x`; tells whether it was absent before.
    pub fn insert(&mut self, x: i64) -> (added: bool)
        requires
            old(self).wf(),
        ensures
            final(self).wf(),
            final(self)@ == old(self)@.insert(x),
            added == !old(self)@.contains(x),
    {
        let pos = lower_bound(&self.items, x);
        if pos < self.items.len() && self.items[pos] == x {
            proof {
                lemma_found_at(self.elements(), pos as int, x);
                assert(self@ =~= old(self)@.insert(x));
            }
            false
        } else {
            proof {
                lemma_insert_absent(self.elements(), pos as int, x);
            }
            self.items.insert(pos, x);
            assert(self@ =~= old(self)@.insert(x));
            true
        }
    }

    /// The members from smallest to greatest.
    pub fn to_vec(&self) -> (members: Vec<i64>)
        ensures
            members@ == self.elements(),
    {
        let members = self.items.clone();
        assert(members@ =~= self.items@);
        members
    }

    /// Moves the members out and leaves the empty set behind.
    pub fn take(&mut self) -> (taken: SortedSet)
        ensures
            taken.elements() == old(self).elements(),
            final(self).elements() == Seq::<i64>::empty(),
    {
        let mut items: Vec<i64> = Vec::new();
        core::mem::swap(&mut self.items, &mut items);
        SortedSet { items }
    }

    /// A copy with the same members.
    pub fn duplicate(&self) -> (copy: SortedSet)
        ensures
            copy.elements() == self.elements(),
    {
        let items = self.items.clone();
        assert(items@ =~= self.items@);
        SortedSet { items }
    }

    /// Adds every member of `other`.
    pub fn union_with(&mut self, other: &SortedSet)
        requires
            old(self).wf(),
            other.wf(),
        ensures
            final(self).wf(),
            final(self)@ == old(self)@.union(other@),
    {
        let n: usize = self.items.len();
        let m: usize = other.items.len();
        let mut out: Vec<i64> = Vec::new();
        let mut i: usize = 0;
        let mut j: usize = 0;
        while i < n || j < m
            invariant
                n == self.items@.len(),
                m == other.items@.len(),
                self.items@ == old(self).items@,
                increasing(self.items@),
                increasing(other.items@),
                merged_up_to(self.items@, other.items@, out@, i as int, j as int),
            decreases (n - i) + (m - j),
        {
            proof {
                lemma_merge_step(self.items@, other.items@, out@, i as int, j as int);
            }
            let take_left: bool = j >= m || (i < n && self.items[i] <= other.items[j]);
            let take_right: bool = i >= n || (j < m && other.items[j] <= self.items[i]);
            let v: i64 = if take_left {
                self.items[i]
            } else {
                other.items[j]
            };
            out.push(v);
            if take_left {
                i = i + 1;
            }
            if take_right {
                j = j + 1;
            }
        }
        proof {
            lemma_merge_done(self.items@, other.items@, out@);
        }
        self.items = out;
    }
}

} // verus!
