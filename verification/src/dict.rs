//! A string-keyed map held as a vector of pairs sorted in strict
//! lexicographic key order.  Iteration order is therefore the
//! lexicographic order of the keys, which is what the result mapping of a
//! lookup must expose when it is serialized.

use vstd::prelude::*;

use crate::text::{lex_lt, lemma_lex_asym, lemma_lex_total, lemma_lex_trans, str_compare, KeyOrder};

verus! {

/// An association sequence: the view of a [`Dict`].
pub open spec fn entries_sorted<X>(m: Seq<(Seq<char>, X)>) -> bool {
    forall|i: int, j: int|
        0 <= i < j < m.len() ==> lex_lt(#[trigger] m[i].0, #[trigger] m[j].0)
}

/// Whether the association sequence carries the key.
pub open spec fn assoc_has<X>(m: Seq<(Seq<char>, X)>, k: Seq<char>) -> bool {
    exists|i: int| 0 <= i < m.len() && (#[trigger] m[i]).0 == k
}

/// The index at which the association sequence carries the key.
pub open spec fn assoc_idx<X>(m: Seq<(Seq<char>, X)>, k: Seq<char>) -> int {
    choose|i: int| 0 <= i < m.len() && (#[trigger] m[i]).0 == k
}

/// The value the association sequence carries at the key.
pub open spec fn assoc_get<X>(m: Seq<(Seq<char>, X)>, k: Seq<char>) -> X {
    m[assoc_idx(m, k)].1
}

/// Insertion into a sorted association sequence: before the first key not
/// below `k`, replacing it when it equals `k`.
pub open spec fn assoc_insert<X>(m: Seq<(Seq<char>, X)>, k: Seq<char>, v: X) -> Seq<
    (Seq<char>, X),
>
    decreases m.len(),
{
    if m.len() == 0 {
        seq![(k, v)]
    } else if lex_lt(m[0].0, k) {
        seq![m[0]] + assoc_insert(m.drop_first(), k, v)
    } else if m[0].0 == k {
        seq![(k, v)] + m.drop_first()
    } else {
        seq![(k, v)] + m
    }
}

/// In a sorted association sequence a key occurs at most once.
pub proof fn lemma_sorted_key_unique<X>(m: Seq<(Seq<char>, X)>, i: int, j: int)
    requires
        entries_sorted(m),
        0 <= i < m.len(),
        0 <= j < m.len(),
        m[i].0 == m[j].0,
    ensures
        i == j,
{
    if i < j {
        lemma_lex_asym(m[i].0, m[j].0);
    } else if j < i {
        lemma_lex_asym(m[j].0, m[i].0);
    }
}

/// `assoc_insert` at the position `idx` where the scan for the key stops:
/// it either overwrites in place or splices the new pair in at `idx`.
proof fn lemma_assoc_insert_at<X>(m: Seq<(Seq<char>, X)>, k: Seq<char>, v: X, idx: int)
    requires
        entries_sorted(m),
        0 <= idx <= m.len(),
        forall|i: int| 0 <= i < idx ==> lex_lt(#[trigger] m[i].0, k),
        idx < m.len() ==> !lex_lt(m[idx].0, k),
    ensures
        idx < m.len() && m[idx].0 == k ==> assoc_insert(m, k, v) == m.update(idx, (k, v)),
        !(idx < m.len() && m[idx].0 == k) ==> assoc_insert(m, k, v) == m.subrange(0, idx) + seq![
            (k, v),
        ] + m.subrange(idx, m.len() as int),
    decreases idx,
{
    if idx == 0 {
        if m.len() > 0 && m[0].0 == k {
            assert(assoc_insert(m, k, v) =~= m.update(0, (k, v)));
        } else {
            if m.len() > 0 {
                assert(!lex_lt(m[0].0, k));
            }
            assert(assoc_insert(m, k, v) =~= m.subrange(0, 0) + seq![(k, v)] + m.subrange(
                0,
                m.len() as int,
            ));
        }
    } else {
        assert(lex_lt(m[0].0, k));
        let t = m.drop_first();
        assert(t.len() == m.len() - 1);
        assert(forall|i: int, j: int|
            0 <= i < j < t.len() ==> lex_lt(#[trigger] t[i].0, #[trigger] t[j].0)) by {
            assert(forall|i: int| 0 <= i < t.len() ==> t[i] == m[i + 1]);
        }
        assert(forall|i: int| 0 <= i < idx - 1 ==> lex_lt(#[trigger] t[i].0, k)) by {
            assert(forall|i: int| 0 <= i < t.len() ==> t[i] == m[i + 1]);
        }
        assert(idx - 1 < t.len() ==> t[idx - 1] == m[idx]);
        lemma_assoc_insert_at(t, k, v, idx - 1);
        if idx < m.len() && m[idx].0 == k {
            assert(assoc_insert(m, k, v) == seq![m[0]] + t.update(idx - 1, (k, v)));
            assert(seq![m[0]] + t.update(idx - 1, (k, v)) =~= m.update(idx, (k, v)));
        } else {
            assert(assoc_insert(m, k, v) == seq![m[0]] + (t.subrange(0, idx - 1) + seq![(k, v)]
                + t.subrange(idx - 1, t.len() as int)));
            assert(seq![m[0]] + (t.subrange(0, idx - 1) + seq![(k, v)] + t.subrange(
                idx - 1,
                t.len() as int,
            )) =~= m.subrange(0, idx) + seq![(k, v)] + m.subrange(idx, m.len() as int));
        }
    }
}

/// Inserting into a sorted association sequence keeps it sorted.
proof fn lemma_assoc_insert_sorted<X>(m: Seq<(Seq<char>, X)>, k: Seq<char>, v: X, idx: int)
    requires
        entries_sorted(m),
        0 <= idx <= m.len(),
        forall|i: int| 0 <= i < idx ==> lex_lt(#[trigger] m[i].0, k),
        idx < m.len() ==> !lex_lt(m[idx].0, k),
    ensures
        entries_sorted(assoc_insert(m, k, v)),
{
    lemma_assoc_insert_at(m, k, v, idx);
    if idx < m.len() && m[idx].0 == k {
        let r = m.update(idx, (k, v));
        assert forall|i: int, j: int| 0 <= i < j < r.len() implies lex_lt(
            #[trigger] r[i].0,
            #[trigger] r[j].0,
        ) by {
            assert(r[i].0 == m[i].0 && r[j].0 == m[j].0);
        }
    } else {
        let r = m.subrange(0, idx) + seq![(k, v)] + m.subrange(idx, m.len() as int);
        if idx < m.len() {
            lemma_lex_total(m[idx].0, k);
        }
        assert forall|i: int, j: int| 0 <= i < j < r.len() implies lex_lt(
            #[trigger] r[i].0,
            #[trigger] r[j].0,
        ) by {
            if i < idx {
                assert(r[i] == m[i]);
            } else if i == idx {
                assert(r[i].0 == k);
            } else {
                assert(r[i] == m[i - 1]);
            }
            if j < idx {
                assert(r[j] == m[j]);
            } else if j == idx {
                assert(r[j].0 == k);
            } else {
                assert(r[j] == m[j - 1]);
            }
            if j == idx {
                // i < idx, so m[i].0 is below k
            } else if i == idx {
                // k is below m[idx].0, which is at or below m[j - 1].0
                assert(lex_lt(k, m[idx].0));
                if j - 1 > idx {
                    lemma_lex_trans(k, m[idx].0, m[j - 1].0);
                }
            }
        }
    }
}

/// A string-keyed map, its entries sorted by `lex_lt` on the keys.
pub struct Dict<V> {
    pairs: Vec<(String, V)>,
}

impl<V: View> View for Dict<V> {
    type V = Seq<(Seq<char>, V::V)>;

    closed spec fn view(&self) -> Seq<(Seq<char>, V::V)> {
        Seq::new(self.pairs@.len() as nat, |i: int| (self.pairs@[i].0@, self.pairs@[i].1@))
    }
}

impl<V: View> Dict<V> {
    /// The entries are in strictly increasing key order.
    pub open spec fn wf(&self) -> bool {
        entries_sorted(self@)
    }

    /// An empty map.
    pub fn new() -> (d: Dict<V>)
        ensures
            d@ == Seq::<(Seq<char>, V::V)>::empty(),
            d.wf(),
    {
        let d = Dict { pairs: Vec::new() };
        proof {
            assert(d@ =~= Seq::<(Seq<char>, V::V)>::empty());
        }
        d
    }

    /// The number of entries.
    pub fn len(&self) -> (n: usize)
        ensures
            n == self@.len(),
    {
        self.pairs.len()
    }

    /// The key of the entry at a position.
    pub fn key_at(&self, i: usize) -> (k: &String)
        requires
            i < self@.len(),
        ensures
            k@ == self@[i as int].0,
    {
        &self.pairs[i].0
    }

    /// The value of the entry at a position.
    pub fn value_at(&self, i: usize) -> (v: &V)
        requires
            i < self@.len(),
        ensures
            v@ == self@[i as int].1,
    {
        &self.pairs[i].1
    }

    /// The position of a key, if the map carries it.
    pub fn find_key(&self, key: &str) -> (r: Option<usize>)
        requires
            self.wf(),
        ensures
            match r {
                Option::Some(i) => i < self@.len() && self@[i as int].0 == key@ && assoc_has(
                    self@,
                    key@,
                ) && assoc_idx(self@, key@) == i as int,
                Option::None => !assoc_has(self@, key@),
            },
    {
        let n = self.pairs.len();
        let mut i: usize = 0;
        while i < n
            invariant
                self.wf(),
                n == self@.len(),
                i <= n,
                forall|k: int| 0 <= k < i ==> (#[trigger] self@[k]).0 != key@,
            decreases n - i,
        {
            let p = &self.pairs[i];
            if crate::text::str_eq(p.0.as_str(), key) {
                proof {
                    assert(self@[i as int].0 == key@);
                    let w = assoc_idx(self@, key@);
                    lemma_sorted_key_unique(self@, w, i as int);
                }
                return Option::Some(i);
            }
            i = i + 1;
        }
        Option::None
    }

    /// Inserts a value at a key, overwriting what the key carried, and
    /// keeping the entries sorted.
    pub fn insert(&mut self, key: String, value: V)
        requires
            old(self).wf(),
        ensures
            final(self).wf(),
            final(self)@ == assoc_insert(old(self)@, key@, value@),
    {
        let n = self.pairs.len();
        let mut idx: usize = 0;
        let mut stop = false;
        let ghost m0 = self@;
        while !stop && idx < n
            invariant
                self@ == m0,
                entries_sorted(m0),
                n == self@.len(),
                idx <= n,
                forall|i: int| 0 <= i < idx ==> lex_lt(#[trigger] m0[i].0, key@),
                stop ==> idx < n && !lex_lt(m0[idx as int].0, key@),
            decreases n - idx + (if stop { 0int } else { 1int }),
        {
            let p = &self.pairs[idx];
            match str_compare(p.0.as_str(), key.as_str()) {
                KeyOrder::Below => {
                    idx = idx + 1;
                },
                _ => {
                    stop = true;
                },
            }
        }
        proof {
            lemma_assoc_insert_at(m0, key@, value@, idx as int);
            lemma_assoc_insert_sorted(m0, key@, value@, idx as int);
        }
        if idx < n {
            let same = {
                let p = &self.pairs[idx];
                crate::text::str_eq(p.0.as_str(), key.as_str())
            };
            if same {
                let _ = self.pairs.remove(idx);
                self.pairs.insert(idx, (key, value));
                proof {
                    assert(self@ =~= m0.update(idx as int, (key@, value@)));
                }
                return ;
            }
        }
        self.pairs.insert(idx, (key, value));
        proof {
            assert(self@ =~= m0.subrange(0, idx as int) + seq![(key@, value@)] + m0.subrange(
                idx as int,
                m0.len() as int,
            ));
        }
    }

    /// Takes the entry at a position out of the map.
    pub fn remove_at(&mut self, i: usize) -> (p: (String, V))
        requires
            old(self).wf(),
            i < old(self)@.len(),
        ensures
            final(self).wf(),
            final(self)@ == old(self)@.remove(i as int),
            p.0@ == old(self)@[i as int].0,
            p.1@ == old(self)@[i as int].1,
    {
        let ghost m0 = self@;
        let p = self.pairs.remove(i);
        proof {
            assert(self@ =~= m0.remove(i as int));
            assert forall|a: int, b: int| 0 <= a < b < self@.len() implies lex_lt(
                (#[trigger] self@[a]).0,
                (#[trigger] self@[b]).0,
            ) by {
                let a0 = if a < i { a } else { a + 1 };
                let b0 = if b < i { b } else { b + 1 };
                assert(self@[a] == m0[a0] && self@[b] == m0[b0]);
            }
        }
        p
    }

    /// Puts an entry back at a position where its key keeps the order.
    pub fn insert_at(&mut self, i: usize, key: String, value: V)
        requires
            old(self).wf(),
            i <= old(self)@.len(),
            forall|k: int| 0 <= k < i ==> lex_lt((#[trigger] old(self)@[k]).0, key@),
            forall|k: int| i <= k < old(self)@.len() ==> lex_lt(key@, (#[trigger] old(self)@[k]).0),
        ensures
            final(self).wf(),
            final(self)@ == old(self)@.insert(i as int, (key@, value@)),
    {
        let ghost m0 = self@;
        self.pairs.insert(i, (key, value));
        proof {
            assert(self@ =~= m0.insert(i as int, (key@, value@)));
            assert forall|a: int, b: int| 0 <= a < b < self@.len() implies lex_lt(
                (#[trigger] self@[a]).0,
                (#[trigger] self@[b]).0,
            ) by {
                if a != i && b != i {
                    let a0 = if a < i { a } else { a - 1 };
                    let b0 = if b < i { b } else { b - 1 };
                    assert(self@[a] == m0[a0] && self@[b] == m0[b0]);
                }
            }
        }
    }
}

} // verus!

verus! {

/// The position where the scan for `k` stops in a sorted association
/// sequence: every key before it is below `k`, the key at it is not.
pub proof fn lemma_scan_idx<X>(m: Seq<(Seq<char>, X)>, k: Seq<char>) -> (idx: int)
    requires
        entries_sorted(m),
    ensures
        0 <= idx <= m.len(),
        forall|i: int| 0 <= i < idx ==> lex_lt((#[trigger] m[i]).0, k),
        idx < m.len() ==> !lex_lt(m[idx].0, k),
    decreases m.len(),
{
    if m.len() == 0 {
        0
    } else if lex_lt(m[0].0, k) {
        let t = m.drop_first();
        assert(forall|i: int| 0 <= i < t.len() ==> t[i] == m[i + 1]);
        assert forall|i: int, j: int| 0 <= i < j < t.len() implies lex_lt(
            (#[trigger] t[i]).0,
            (#[trigger] t[j]).0,
        ) by {
            assert(t[i] == m[i + 1] && t[j] == m[j + 1]);
        }
        let idx0 = lemma_scan_idx(t, k);
        assert(idx0 < t.len() ==> m[idx0 + 1] == t[idx0]);
        assert forall|i: int| 0 <= i < idx0 + 1 implies lex_lt((#[trigger] m[i]).0, k) by {
            if i > 0 {
                assert(m[i] == t[i - 1]);
            }
        }
        idx0 + 1
    } else {
        0
    }
}

/// What `assoc_insert` does, seen through `assoc_has` and `assoc_get`:
/// the key now carries the value, every other key is untouched, and the
/// entries stay sorted.
pub proof fn lemma_assoc_insert_props<X>(m: Seq<(Seq<char>, X)>, k: Seq<char>, v: X)
    requires
        entries_sorted(m),
    ensures
        entries_sorted(assoc_insert(m, k, v)),
        assoc_has(assoc_insert(m, k, v), k),
        assoc_get(assoc_insert(m, k, v), k) == v,
        forall|k2: Seq<char>|
            k2 != k ==> (assoc_has(assoc_insert(m, k, v), k2) <==> assoc_has(m, k2)),
        forall|k2: Seq<char>|
            k2 != k && assoc_has(m, k2) ==> assoc_get(assoc_insert(m, k, v), k2) == assoc_get(
                m,
                k2,
            ),
        assoc_has(m, k) ==> assoc_insert(m, k, v).len() == m.len(),
        !assoc_has(m, k) ==> assoc_insert(m, k, v).len() == m.len() + 1,
{
    let idx = lemma_scan_idx(m, k);
    lemma_assoc_insert_at(m, k, v, idx);
    lemma_assoc_insert_sorted(m, k, v, idx);
    let r = assoc_insert(m, k, v);
    if idx < m.len() && m[idx].0 == k {
        assert(r == m.update(idx, (k, v)));
        assert(r[idx].0 == k);
        assert(assoc_has(r, k));
        lemma_sorted_key_unique(r, assoc_idx(r, k), idx);
        assert(assoc_get(r, k) == v);
        assert(assoc_has(m, k));
        assert forall|k2: Seq<char>| k2 != k implies (assoc_has(r, k2) <==> assoc_has(m, k2)) by {
            if assoc_has(r, k2) {
                let j = assoc_idx(r, k2);
                assert(r[j].0 == k2 && j != idx);
                assert(m[j].0 == k2);
            }
            if assoc_has(m, k2) {
                let j = choose|j: int| 0 <= j < m.len() && (#[trigger] m[j]).0 == k2;
                assert(r[j].0 == k2);
            }
        }
        assert forall|k2: Seq<char>| k2 != k && assoc_has(m, k2) implies assoc_get(r, k2)
            == assoc_get(m, k2) by {
            let j = assoc_idx(m, k2);
            assert(m[j].0 == k2 && j != idx);
            assert(r[j].0 == k2);
            lemma_sorted_key_unique(r, assoc_idx(r, k2), j);
        }
    } else {
        assert(r == m.subrange(0, idx) + seq![(k, v)] + m.subrange(idx, m.len() as int));
        assert(r.len() == m.len() + 1);
        assert(r[idx] == (k, v));
        assert(assoc_has(r, k));
        lemma_sorted_key_unique(r, assoc_idx(r, k), idx);
        assert(assoc_get(r, k) == v);
        assert forall|j: int| 0 <= j < m.len() implies m[j].0 != k by {
            if j < idx {
                crate::text::lemma_lex_asym(m[j].0, k);
            } else {
                assert(!lex_lt(m[idx].0, k));
                if j > idx {
                    assert(lex_lt(m[idx].0, m[j].0));
                    if m[j].0 == k {
                        assert(lex_lt(m[idx].0, k));
                    }
                }
                if m[j].0 == k {
                    crate::text::lemma_lex_total(m[j].0, k);
                    assert(lex_lt(k, m[j].0) || k == m[j].0);
                    crate::text::lemma_lex_asym(k, m[j].0);
                }
            }
        }
        assert(!assoc_has(m, k));
        assert forall|k2: Seq<char>| k2 != k implies (assoc_has(r, k2) <==> assoc_has(m, k2)) by {
            if assoc_has(r, k2) {
                let j = assoc_idx(r, k2);
                assert(r[j].0 == k2 && j != idx);
                if j < idx {
                    assert(m[j].0 == k2);
                } else {
                    assert(r[j] == m[j - 1]);
                    assert(m[j - 1].0 == k2);
                }
            }
            if assoc_has(m, k2) {
                let j = choose|j: int| 0 <= j < m.len() && (#[trigger] m[j]).0 == k2;
                if j < idx {
                    assert(r[j].0 == k2);
                } else {
                    assert(r[j + 1] == m[j]);
                    assert(r[j + 1].0 == k2);
                }
            }
        }
        assert forall|k2: Seq<char>| k2 != k && assoc_has(m, k2) implies assoc_get(r, k2)
            == assoc_get(m, k2) by {
            let j = assoc_idx(m, k2);
            assert(m[j].0 == k2);
            if j < idx {
                assert(r[j].0 == k2);
                lemma_sorted_key_unique(r, assoc_idx(r, k2), j);
            } else {
                assert(r[j + 1] == m[j]);
                lemma_sorted_key_unique(r, assoc_idx(r, k2), j + 1);
            }
        }
    }
}

} // verus!

verus! {

/// Every value of an insertion's result is the inserted value or one the
/// sequence already carried.
pub proof fn lemma_assoc_insert_values<X>(m: Seq<(Seq<char>, X)>, k: Seq<char>, v: X)
    requires
        entries_sorted(m),
    ensures
        forall|i: int|
            0 <= i < assoc_insert(m, k, v).len() ==> ((#[trigger] assoc_insert(m, k, v)[i]).1 == v
                || exists|j: int| 0 <= j < m.len() && (#[trigger] m[j]).1 == assoc_insert(m, k, v)[i].1),
{
    let idx = lemma_scan_idx(m, k);
    lemma_assoc_insert_at(m, k, v, idx);
    let r = assoc_insert(m, k, v);
    assert forall|i: int| 0 <= i < r.len() implies ((#[trigger] r[i]).1 == v || exists|j: int|
        0 <= j < m.len() && (#[trigger] m[j]).1 == r[i].1) by {
        if idx < m.len() && m[idx].0 == k {
            if i != idx {
                assert(r[i] == m[i]);
                assert(m[i].1 == r[i].1);
            }
        } else {
            if i < idx {
                assert(r[i] == m[i]);
                assert(m[i].1 == r[i].1);
            } else if i > idx {
                assert(r[i] == m[i - 1]);
                assert(m[i - 1].1 == r[i].1);
            }
        }
    }
}

} // verus!

verus! {

impl<V: View> Dict<V> {
    /// Wraps a plain pair vector, keeping its order as it stands.  The
    /// result is well formed only when the pairs were already sorted.
    pub fn from_pairs(pairs: Vec<(String, V)>) -> (d: Dict<V>)
        ensures
            d@ == Seq::new(pairs@.len() as nat, |i: int| (pairs@[i].0@, pairs@[i].1@)),
    {
        let d = Dict { pairs };
        proof {
            assert(d@ =~= Seq::new(d.pairs@.len() as nat, |i: int| (d.pairs@[i].0@, d.pairs@[i].1@)));
        }
        d
    }
}

} // verus!
