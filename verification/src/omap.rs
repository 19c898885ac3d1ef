//! An association container ordered strictly by the lexicographic key order,
//! used for the store's file table, its collections, and its tag maps. It
//! plays the role of an ordered map keyed by strings: keys are unique, and
//! iteration yields them in ascending order.
use vstd::prelude::*;
use crate::text::{lex_lt, str_lt, lemma_lex_lt_strict, lemma_lex_lt_trans};

verus! {

/// The keys of an entry sequence, in order.
pub open spec fn keys_of<T>(s: Seq<(Seq<char>, T)>) -> Seq<Seq<char>> {
    s.map_values(|p: (Seq<char>, T)| p.0)
}

/// Entries are strictly ascending by key; this implies the keys are unique.
pub open spec fn map_sorted<T>(s: Seq<(Seq<char>, T)>) -> bool {
    forall|i: int, j: int| 0 <= i < j < s.len() ==> lex_lt(#[trigger] s[i].0, #[trigger] s[j].0)
}

pub open spec fn map_has<T>(s: Seq<(Seq<char>, T)>, k: Seq<char>) -> bool {
    exists|i: int| 0 <= i < s.len() && (#[trigger] s[i].0) == k
}

pub open spec fn map_idx<T>(s: Seq<(Seq<char>, T)>, k: Seq<char>) -> int {
    choose|i: int| 0 <= i < s.len() && (#[trigger] s[i].0) == k
}

pub open spec fn map_get<T>(s: Seq<(Seq<char>, T)>, k: Seq<char>) -> T {
    s[map_idx(s, k)].1
}

/// Entries with key `k` replaced; other entries unchanged, in place.
pub open spec fn map_insert<T>(s: Seq<(Seq<char>, T)>, k: Seq<char>, v: T) -> Seq<(Seq<char>, T)>
    decreases s.len(),
{
    if s.len() == 0 {
        seq![(k, v)]
    } else if lex_lt(k, s[0].0) {
        seq![(k, v)] + s
    } else if k == s[0].0 {
        seq![(k, v)] + s.skip(1)
    } else {
        seq![s[0]] + map_insert(s.skip(1), k, v)
    }
}

/// The first entry with key `k` dropped; the sequence unchanged if absent.
pub open spec fn map_remove<T>(s: Seq<(Seq<char>, T)>, k: Seq<char>) -> Seq<(Seq<char>, T)>
    decreases s.len(),
{
    if s.len() == 0 {
        s
    } else if k == s[0].0 {
        s.skip(1)
    } else {
        seq![s[0]] + map_remove(s.skip(1), k)
    }
}

/// In a sorted entry sequence an occurrence of a key is the only one, and
/// `map_get` reads exactly that occurrence.
pub proof fn lemma_sorted_key_at<T>(s: Seq<(Seq<char>, T)>, k: Seq<char>, i: int)
    requires
        map_sorted(s),
        0 <= i < s.len(),
        s[i].0 == k,
    ensures
        map_has(s, k),
        map_idx(s, k) == i,
        map_get(s, k) == s[i].1,
{
    assert(map_has(s, k));
    let j = map_idx(s, k);
    if j != i {
        if j < i {
            assert(lex_lt(s[j].0, s[i].0));
        } else {
            assert(lex_lt(s[i].0, s[j].0));
        }
        lemma_lex_lt_strict(k, k);
    }
}

/// `map_insert` rewritten as a splice at the scan position `idx`: the first
/// position whose key is not below `k`.
pub proof fn lemma_map_insert_splice<T>(s: Seq<(Seq<char>, T)>, k: Seq<char>, v: T, idx: int)
    requires
        map_sorted(s),
        0 <= idx <= s.len(),
        forall|j: int| 0 <= j < idx ==> lex_lt(#[trigger] s[j].0, k),
        idx < s.len() ==> !lex_lt(s[idx].0, k),
    ensures
        idx < s.len() && s[idx].0 == k ==> map_insert(s, k, v) == s.take(idx) + seq![(k, v)]
            + s.skip(idx + 1),
        !(idx < s.len() && s[idx].0 == k) ==> map_insert(s, k, v) == s.take(idx) + seq![(k, v)]
            + s.skip(idx),
    decreases idx,
{
    if idx == 0 {
        if s.len() == 0 {
            assert(map_insert(s, k, v) =~= s.take(0) + seq![(k, v)] + s.skip(0));
        } else if s[0].0 == k {
            assert(map_insert(s, k, v) =~= s.take(0) + seq![(k, v)] + s.skip(1));
        } else {
            lemma_lex_lt_strict(k, s[0].0);
            assert(lex_lt(k, s[0].0));
            assert(map_insert(s, k, v) =~= s.take(0) + seq![(k, v)] + s.skip(0));
        }
    } else {
        assert(lex_lt(s[0].0, k));
        lemma_lex_lt_strict(k, s[0].0);
        assert(!lex_lt(k, s[0].0) && k != s[0].0);
        let t = s.skip(1);
        assert(forall|j: int| 0 <= j < idx - 1 ==> lex_lt(#[trigger] t[j].0, k));
        assert(map_sorted(t)) by {
            assert(forall|i: int, j: int|
                0 <= i < j < t.len() ==> lex_lt(#[trigger] t[i].0, #[trigger] t[j].0)) by {
                assert(forall|i: int| 0 <= i < t.len() ==> #[trigger] t[i] == s[i + 1]);
            }
        }
        lemma_map_insert_splice(t, k, v, idx - 1);
        assert(map_insert(s, k, v) == seq![s[0]] + map_insert(t, k, v));
        if idx < s.len() && s[idx].0 == k {
            assert(t[idx - 1].0 == k);
            assert(map_insert(s, k, v) =~= s.take(idx) + seq![(k, v)] + s.skip(idx + 1));
        } else {
            assert(map_insert(s, k, v) =~= s.take(idx) + seq![(k, v)] + s.skip(idx));
        }
    }
}

/// The splice at the scan position keeps the entries sorted.
pub proof fn lemma_map_splice_sorted<T>(s: Seq<(Seq<char>, T)>, k: Seq<char>, v: T, idx: int)
    requires
        map_sorted(s),
        0 <= idx <= s.len(),
        forall|j: int| 0 <= j < idx ==> lex_lt(#[trigger] s[j].0, k),
        idx < s.len() ==> !lex_lt(s[idx].0, k),
    ensures
        idx < s.len() && s[idx].0 == k ==> map_sorted(
            s.take(idx) + seq![(k, v)] + s.skip(idx + 1)),
        !(idx < s.len() && s[idx].0 == k) ==> map_sorted(s.take(idx) + seq![(k, v)] + s.skip(idx)),
{
    if idx < s.len() && s[idx].0 == k {
        let out = s.take(idx) + seq![(k, v)] + s.skip(idx + 1);
        assert forall|i: int, j: int| 0 <= i < j < out.len() implies lex_lt(
            #[trigger] out[i].0, #[trigger] out[j].0) by {
            assert(forall|m: int| 0 <= m < idx ==> #[trigger] out[m] == s[m]);
            assert(out[idx].0 == k);
            assert(forall|m: int| idx < m < out.len() ==> #[trigger] out[m] == s[m]);
        }
    } else {
        let out = s.take(idx) + seq![(k, v)] + s.skip(idx);
        if idx < s.len() {
            lemma_lex_lt_strict(s[idx].0, k);
            assert(lex_lt(k, s[idx].0));
        }
        assert forall|i: int, j: int| 0 <= i < j < out.len() implies lex_lt(
            #[trigger] out[i].0, #[trigger] out[j].0) by {
            assert(forall|m: int| 0 <= m < idx ==> #[trigger] out[m] == s[m]);
            assert(out[idx].0 == k);
            assert(forall|m: int| idx < m < out.len() ==> #[trigger] out[m] == s[m - 1]);
            if i == idx && j > idx {
                assert(lex_lt(k, s[idx].0));
                if j - 1 > idx {
                    lemma_lex_lt_trans(k, s[idx].0, s[j - 1].0);
                }
            }
            if j == idx && false {}
        }
    }
}

/// `map_remove` of a present key is the splice that drops its entry.
pub proof fn lemma_map_remove_splice<T>(s: Seq<(Seq<char>, T)>, k: Seq<char>, idx: int)
    requires
        map_sorted(s),
        0 <= idx < s.len(),
        s[idx].0 == k,
    ensures
        map_remove(s, k) == s.take(idx) + s.skip(idx + 1),
    decreases idx,
{
    if idx == 0 {
        assert(map_remove(s, k) =~= s.take(0) + s.skip(1));
    } else {
        assert(lex_lt(s[0].0, s[idx].0));
        lemma_lex_lt_strict(s[0].0, k);
        let t = s.skip(1);
        assert(map_sorted(t)) by {
            assert(forall|i: int| 0 <= i < t.len() ==> #[trigger] t[i] == s[i + 1]);
        }
        assert(t[idx - 1].0 == k);
        lemma_map_remove_splice(t, k, idx - 1);
        assert(map_remove(s, k) == seq![s[0]] + map_remove(t, k));
        assert(map_remove(s, k) =~= s.take(idx) + s.skip(idx + 1));
    }
}

/// Removing an absent key changes nothing.
pub proof fn lemma_map_remove_absent<T>(s: Seq<(Seq<char>, T)>, k: Seq<char>)
    requires
        !map_has(s, k),
    ensures
        map_remove(s, k) == s,
    decreases s.len(),
{
    if s.len() > 0 {
        assert(s[0].0 != k);
        let t = s.skip(1);
        assert(!map_has(t, k)) by {
            assert(forall|i: int| 0 <= i < t.len() ==> #[trigger] t[i] == s[i + 1]);
        }
        lemma_map_remove_absent(t, k);
        assert(seq![s[0]] + t =~= s);
    }
}

/// Every entry of an insertion result is the new pair or one of the old
/// entries.
pub proof fn lemma_map_insert_elems<T>(s: Seq<(Seq<char>, T)>, k: Seq<char>, v: T)
    ensures
        forall|m: int|
            0 <= m < map_insert(s, k, v).len() ==> (#[trigger] map_insert(s, k, v)[m]) == (k, v)
                || exists|j: int| 0 <= j < s.len() && map_insert(s, k, v)[m] == s[j],
    decreases s.len(),
{
    let out = map_insert(s, k, v);
    if s.len() == 0 {
    } else if lex_lt(k, s[0].0) {
        assert forall|m: int| 0 <= m < out.len() implies (#[trigger] out[m]) == (k, v) || exists|
            j: int| 0 <= j < s.len() && out[m] == s[j] by {
            if m > 0 {
                assert(out[m] == s[m - 1]);
            }
        }
    } else if k == s[0].0 {
        assert forall|m: int| 0 <= m < out.len() implies (#[trigger] out[m]) == (k, v) || exists|
            j: int| 0 <= j < s.len() && out[m] == s[j] by {
            if m > 0 {
                assert(out[m] == s[m]);
            }
        }
    } else {
        let t = s.skip(1);
        lemma_map_insert_elems(t, k, v);
        let sub = map_insert(t, k, v);
        assert forall|m: int| 0 <= m < out.len() implies (#[trigger] out[m]) == (k, v) || exists|
            j: int| 0 <= j < s.len() && out[m] == s[j] by {
            if m == 0 {
                assert(out[0] == s[0]);
            } else {
                assert(out[m] == sub[m - 1]);
                if sub[m - 1] == (k, v) {
                } else {
                    let j = choose|j: int| 0 <= j < t.len() && sub[m - 1] == t[j];
                    assert(t[j] == s[j + 1]);
                }
            }
        }
    }
}

/// Every entry of a removal result is one of the old entries.
pub proof fn lemma_map_remove_elems<T>(s: Seq<(Seq<char>, T)>, k: Seq<char>)
    ensures
        forall|m: int|
            0 <= m < map_remove(s, k).len() ==> exists|j: int|
                0 <= j < s.len() && (#[trigger] map_remove(s, k)[m]) == s[j],
    decreases s.len(),
{
    let out = map_remove(s, k);
    if s.len() == 0 {
    } else if k == s[0].0 {
        assert forall|m: int| 0 <= m < out.len() implies exists|j: int|
            0 <= j < s.len() && (#[trigger] out[m]) == s[j] by {
            assert(out[m] == s[m + 1]);
        }
    } else {
        let t = s.skip(1);
        lemma_map_remove_elems(t, k);
        let sub = map_remove(t, k);
        assert forall|m: int| 0 <= m < out.len() implies exists|j: int|
            0 <= j < s.len() && (#[trigger] out[m]) == s[j] by {
            if m == 0 {
                assert(out[0] == s[0]);
            } else {
                assert(out[m] == sub[m - 1]);
                let j = choose|j: int| 0 <= j < t.len() && sub[m - 1] == t[j];
                assert(t[j] == s[j + 1]);
            }
        }
    }
}

/// Inserting under a present key gives the same table whether or not the
/// old entry was removed first.
pub proof fn lemma_map_reinsert<T>(s: Seq<(Seq<char>, T)>, k: Seq<char>, v: T)
    requires
        map_sorted(s),
        map_has(s, k),
    ensures
        map_insert(map_remove(s, k), k, v) == map_insert(s, k, v),
{
    let idx = map_idx(s, k);
    assert(0 <= idx < s.len() && s[idx].0 == k);
    lemma_sorted_key_at(s, k, idx);
    lemma_map_remove_splice(s, k, idx);
    lemma_map_remove_sorted(s, idx);
    let removed = s.take(idx) + s.skip(idx + 1);
    assert(forall|j: int| 0 <= j < idx ==> #[trigger] removed[j] == s[j]);
    assert(forall|j: int| idx <= j < removed.len() ==> #[trigger] removed[j] == s[j + 1]);
    assert(forall|j: int| 0 <= j < idx ==> lex_lt(#[trigger] removed[j].0, k));
    assert(idx < removed.len() ==> !lex_lt(removed[idx].0, k)) by {
        if idx < removed.len() {
            lemma_lex_lt_strict(k, removed[idx].0);
        }
    }
    lemma_map_insert_splice(removed, k, v, idx);
    if idx < removed.len() && removed[idx].0 == k {
        lemma_lex_lt_strict(s[idx].0, s[idx + 1].0);
        assert(false);
    }
    assert(forall|j: int| 0 <= j < idx ==> lex_lt(#[trigger] s[j].0, k));
    assert(!lex_lt(s[idx].0, k)) by {
        lemma_lex_lt_strict(k, k);
    }
    lemma_map_insert_splice(s, k, v, idx);
    assert(map_insert(removed, k, v) =~= map_insert(s, k, v));
}

/// Removing an entry keeps the remainder sorted.
pub proof fn lemma_map_remove_sorted<T>(s: Seq<(Seq<char>, T)>, idx: int)
    requires
        map_sorted(s),
        0 <= idx < s.len(),
    ensures
        map_sorted(s.take(idx) + s.skip(idx + 1)),
{
    let out = s.take(idx) + s.skip(idx + 1);
    assert forall|i: int, j: int| 0 <= i < j < out.len() implies lex_lt(
        #[trigger] out[i].0, #[trigger] out[j].0) by {
        assert(forall|m: int| 0 <= m < idx ==> #[trigger] out[m] == s[m]);
        assert(forall|m: int| idx <= m < out.len() ==> #[trigger] out[m] == s[m + 1]);
    }
}

/// An ordered map from string keys to values, kept as an entry vector that
/// is strictly ascending in the key order.
#[derive(Debug)]
pub struct OrderedMap<V> {
    entries: Vec<(String, V)>,
}

impl<V: DeepView> OrderedMap<V> {
    /// The ordered entries, with keys and values abstracted to their views.
    pub closed spec fn view(&self) -> Seq<(Seq<char>, V::V)> {
        Seq::new(self.entries@.len(), |i: int| (self.entries@[i].0@, self.entries@[i].1.deep_view()))
    }

    pub open spec fn wf(&self) -> bool {
        map_sorted(self.view())
    }

    pub fn new() -> (r: Self)
        ensures
            r.view() =~= Seq::<(Seq<char>, V::V)>::empty(),
            r.wf(),
    {
        OrderedMap { entries: Vec::new() }
    }

    pub fn len(&self) -> (r: usize)
        ensures
            r == self.view().len(),
    {
        self.entries.len()
    }

    pub fn is_empty(&self) -> (r: bool)
        ensures
            r == (self.view().len() == 0),
    {
        self.entries.is_empty()
    }

    /// The entry at position `i` in key order.
    pub fn get_index(&self, i: usize) -> (r: &(String, V))
        requires
            i < self.view().len(),
        ensures
            r.0@ == self.view()[i as int].0,
            r.1.deep_view() == self.view()[i as int].1,
    {
        &self.entries[i]
    }

    /// The scan position for key `k`: the count of entries strictly below it.
    fn scan(&self, k: &str) -> (idx: usize)
        requires
            self.wf(),
        ensures
            idx <= self.view().len(),
            forall|j: int| 0 <= j < idx ==> lex_lt(#[trigger] self.view()[j].0, k@),
            idx < self.view().len() ==> !lex_lt(self.view()[idx as int].0, k@),
    {
        let n = self.entries.len();
        let mut idx: usize = 0;
        loop
            invariant
                idx <= n,
                n == self.view().len(),
                forall|j: int| 0 <= j < idx ==> lex_lt(#[trigger] self.view()[j].0, k@),
            decreases n - idx,
        {
            if idx == n {
                return idx;
            }
            let below = str_lt(self.entries[idx].0.as_str(), k);
            if !below {
                return idx;
            }
            idx = idx + 1;
        }
    }

    pub fn contains_key(&self, k: &str) -> (r: bool)
        requires
            self.wf(),
        ensures
            r == map_has(self.view(), k@),
    {
        let idx = self.scan(k);
        if idx < self.entries.len() {
            let eq = crate::text::str_eq(self.entries[idx].0.as_str(), k);
            proof {
                if eq {
                    lemma_sorted_key_at(self.view(), k@, idx as int);
                } else {
                    lemma_lex_lt_strict(self.view()[idx as int].0, k@);
                    assert(lex_lt(k@, self.view()[idx as int].0));
                    assert forall|i: int| 0 <= i < self.view().len() implies (
                        #[trigger] self.view()[i].0) != k@ by {
                        if i < idx {
                            lemma_lex_lt_strict(self.view()[i].0, k@);
                        } else if i > idx {
                            lemma_lex_lt_trans(k@, self.view()[idx as int].0, self.view()[i].0);
                            lemma_lex_lt_strict(k@, self.view()[i].0);
                        }
                    }
                }
            }
            eq
        } else {
            proof {
                assert forall|i: int| 0 <= i < self.view().len() implies (
                    #[trigger] self.view()[i].0) != k@ by {
                    lemma_lex_lt_strict(self.view()[i].0, k@);
                }
            }
            false
        }
    }

    /// Looks a key up, returning a reference to its value.
    pub fn get(&self, k: &str) -> (r: Option<&V>)
        requires
            self.wf(),
        ensures
            map_has(self.view(), k@) ==> r is Some
                && r->Some_0.deep_view() == map_get(self.view(), k@),
            !map_has(self.view(), k@) ==> r is None,
    {
        let idx = self.scan(k);
        if idx < self.entries.len() {
            let eq = crate::text::str_eq(self.entries[idx].0.as_str(), k);
            if eq {
                proof {
                    lemma_sorted_key_at(self.view(), k@, idx as int);
                }
                return Some(&self.entries[idx].1);
            }
            proof {
                lemma_lex_lt_strict(self.view()[idx as int].0, k@);
                assert(lex_lt(k@, self.view()[idx as int].0));
                assert forall|i: int| 0 <= i < self.view().len() implies (
                    #[trigger] self.view()[i].0) != k@ by {
                    if i < idx {
                        lemma_lex_lt_strict(self.view()[i].0, k@);
                    } else if i > idx {
                        lemma_lex_lt_trans(k@, self.view()[idx as int].0, self.view()[i].0);
                        lemma_lex_lt_strict(k@, self.view()[i].0);
                    }
                }
            }
            None
        } else {
            proof {
                assert forall|i: int| 0 <= i < self.view().len() implies (
                    #[trigger] self.view()[i].0) != k@ by {
                    lemma_lex_lt_strict(self.view()[i].0, k@);
                }
            }
            None
        }
    }

    /// Inserts or replaces the value under `k`.
    pub fn insert(&mut self, k: String, v: V)
        requires
            old(self).wf(),
        ensures
            final(self).view() == map_insert(old(self).view(), k@, v.deep_view()),
            final(self).wf(),
    {
        let ghost s = self.view();
        let idx = self.scan(k.as_str());
        proof {
            lemma_map_insert_splice(s, k@, v.deep_view(), idx as int);
            lemma_map_splice_sorted(s, k@, v.deep_view(), idx as int);
        }
        if idx < self.entries.len() {
            let eq = crate::text::str_eq(self.entries[idx].0.as_str(), k.as_str());
            if eq {
                self.entries.remove(idx);
                self.entries.insert(idx, (k, v));
                proof {
                    assert(self.view() =~= s.take(idx as int) + seq![(k@, v.deep_view())]
                        + s.skip(idx as int + 1));
                }
                return;
            }
        }
        self.entries.insert(idx, (k, v));
        proof {
            assert(self.view() =~= s.take(idx as int) + seq![(k@, v.deep_view())]
                + s.skip(idx as int));
        }
    }

    /// Removes the entry under `k`, returning its value when present.
    pub fn remove(&mut self, k: &str) -> (r: Option<V>)
        requires
            old(self).wf(),
        ensures
            final(self).view() == map_remove(old(self).view(), k@),
            final(self).wf(),
            map_has(old(self).view(), k@) ==> r is Some
                && r->Some_0.deep_view() == map_get(old(self).view(), k@),
            !map_has(old(self).view(), k@) ==> r is None && final(self).view() == old(self).view(),
    {
        let ghost s = self.view();
        let idx = self.scan(k);
        if idx < self.entries.len() {
            let eq = crate::text::str_eq(self.entries[idx].0.as_str(), k);
            if eq {
                proof {
                    lemma_sorted_key_at(s, k@, idx as int);
                    lemma_map_remove_splice(s, k@, idx as int);
                    lemma_map_remove_sorted(s, idx as int);
                }
                let pair = self.entries.remove(idx);
                proof {
                    assert(self.view() =~= s.take(idx as int) + s.skip(idx as int + 1));
                }
                return Some(pair.1);
            }
            proof {
                lemma_lex_lt_strict(s[idx as int].0, k@);
                assert(lex_lt(k@, s[idx as int].0));
                assert forall|i: int| 0 <= i < s.len() implies (#[trigger] s[i].0) != k@ by {
                    if i < idx {
                        lemma_lex_lt_strict(s[i].0, k@);
                    } else if i > idx {
                        lemma_lex_lt_trans(k@, s[idx as int].0, s[i].0);
                        lemma_lex_lt_strict(k@, s[i].0);
                    }
                }
                lemma_map_remove_absent(s, k@);
            }
            None
        } else {
            proof {
                assert forall|i: int| 0 <= i < s.len() implies (#[trigger] s[i].0) != k@ by {
                    lemma_lex_lt_strict(s[i].0, k@);
                }
                lemma_map_remove_absent(s, k@);
            }
            None
        }
    }

    pub fn clear(&mut self)
        ensures
            final(self).view() =~= Seq::<(Seq<char>, V::V)>::empty(),
            final(self).wf(),
    {
        self.entries.clear();
    }

    /// Appends an entry whose key is above every present key; used when
    /// rebuilding a map in ascending key order.
    pub fn push_monotone(&mut self, k: String, v: V)
        requires
            old(self).wf(),
            old(self).view().len() > 0 ==> lex_lt(old(self).view().last().0, k@),
        ensures
            final(self).view() == old(self).view().push((k@, v.deep_view())),
            final(self).wf(),
    {
        let ghost s = self.view();
        self.entries.push((k, v));
        proof {
            assert(self.view() =~= s.push((k@, v.deep_view())));
            let out = self.view();
            assert forall|i: int, j: int| 0 <= i < j < out.len() implies lex_lt(
                #[trigger] out[i].0, #[trigger] out[j].0) by {
                if j == out.len() - 1 {
                    if i < s.len() - 1 {
                        lemma_lex_lt_trans(s[i].0, s.last().0, k@);
                    }
                }
            }
        }
    }
}

/// Elements are strictly ascending, so each occurs once.
pub open spec fn set_sorted(s: Seq<Seq<char>>) -> bool {
    forall|i: int, j: int| 0 <= i < j < s.len() ==> lex_lt(#[trigger] s[i], #[trigger] s[j])
}

pub open spec fn set_has(s: Seq<Seq<char>>, k: Seq<char>) -> bool {
    exists|i: int| 0 <= i < s.len() && (#[trigger] s[i]) == k
}

/// `k` spliced in at its ordered position; the sequence unchanged if present.
pub open spec fn set_insert(s: Seq<Seq<char>>, k: Seq<char>) -> Seq<Seq<char>>
    decreases s.len(),
{
    if s.len() == 0 {
        seq![k]
    } else if lex_lt(k, s[0]) {
        seq![k] + s
    } else if k == s[0] {
        s
    } else {
        seq![s[0]] + set_insert(s.skip(1), k)
    }
}

/// The first occurrence of `k` dropped; the sequence unchanged if absent.
pub open spec fn set_remove(s: Seq<Seq<char>>, k: Seq<char>) -> Seq<Seq<char>>
    decreases s.len(),
{
    if s.len() == 0 {
        s
    } else if k == s[0] {
        s.skip(1)
    } else {
        seq![s[0]] + set_remove(s.skip(1), k)
    }
}

/// `set_insert` rewritten as a splice at the scan position `idx`.
pub proof fn lemma_set_insert_splice(s: Seq<Seq<char>>, k: Seq<char>, idx: int)
    requires
        set_sorted(s),
        0 <= idx <= s.len(),
        forall|j: int| 0 <= j < idx ==> lex_lt(#[trigger] s[j], k),
        idx < s.len() ==> !lex_lt(s[idx], k),
    ensures
        idx < s.len() && s[idx] == k ==> set_insert(s, k) == s,
        !(idx < s.len() && s[idx] == k) ==> set_insert(s, k) == s.take(idx) + seq![k]
            + s.skip(idx),
    decreases idx,
{
    if idx == 0 {
        if s.len() == 0 {
            assert(set_insert(s, k) =~= s.take(0) + seq![k] + s.skip(0));
        } else if s[0] == k {
        } else {
            lemma_lex_lt_strict(k, s[0]);
            assert(lex_lt(k, s[0]));
            assert(set_insert(s, k) =~= s.take(0) + seq![k] + s.skip(0));
        }
    } else {
        assert(lex_lt(s[0], k));
        lemma_lex_lt_strict(k, s[0]);
        let t = s.skip(1);
        assert(set_sorted(t)) by {
            assert(forall|i: int| 0 <= i < t.len() ==> #[trigger] t[i] == s[i + 1]);
        }
        assert(forall|j: int| 0 <= j < idx - 1 ==> lex_lt(#[trigger] t[j], k));
        lemma_set_insert_splice(t, k, idx - 1);
        assert(set_insert(s, k) == seq![s[0]] + set_insert(t, k));
        if idx < s.len() && s[idx] == k {
            assert(t[idx - 1] == k);
            assert(set_insert(s, k) =~= s);
        } else {
            assert(set_insert(s, k) =~= s.take(idx) + seq![k] + s.skip(idx));
        }
    }
}

pub proof fn lemma_set_splice_sorted(s: Seq<Seq<char>>, k: Seq<char>, idx: int)
    requires
        set_sorted(s),
        0 <= idx <= s.len(),
        forall|j: int| 0 <= j < idx ==> lex_lt(#[trigger] s[j], k),
        idx < s.len() ==> !lex_lt(s[idx], k) && s[idx] != k,
    ensures
        set_sorted(s.take(idx) + seq![k] + s.skip(idx)),
{
    let out = s.take(idx) + seq![k] + s.skip(idx);
    if idx < s.len() {
        lemma_lex_lt_strict(s[idx], k);
        assert(lex_lt(k, s[idx]));
    }
    assert forall|i: int, j: int| 0 <= i < j < out.len() implies lex_lt(
        #[trigger] out[i], #[trigger] out[j]) by {
        assert(forall|m: int| 0 <= m < idx ==> #[trigger] out[m] == s[m]);
        assert(out[idx] == k);
        assert(forall|m: int| idx < m < out.len() ==> #[trigger] out[m] == s[m - 1]);
        if i == idx && j > idx {
            if j - 1 > idx {
                lemma_lex_lt_trans(k, s[idx], s[j - 1]);
            }
        }
    }
}

pub proof fn lemma_set_remove_splice(s: Seq<Seq<char>>, k: Seq<char>, idx: int)
    requires
        set_sorted(s),
        0 <= idx < s.len(),
        s[idx] == k,
    ensures
        set_remove(s, k) == s.take(idx) + s.skip(idx + 1),
        set_sorted(s.take(idx) + s.skip(idx + 1)),
    decreases idx,
{
    if idx == 0 {
        assert(set_remove(s, k) =~= s.take(0) + s.skip(1));
    } else {
        assert(lex_lt(s[0], s[idx]));
        lemma_lex_lt_strict(s[0], k);
        let t = s.skip(1);
        assert(set_sorted(t)) by {
            assert(forall|i: int| 0 <= i < t.len() ==> #[trigger] t[i] == s[i + 1]);
        }
        assert(t[idx - 1] == k);
        lemma_set_remove_splice(t, k, idx - 1);
        assert(set_remove(s, k) == seq![s[0]] + set_remove(t, k));
        assert(set_remove(s, k) =~= s.take(idx) + s.skip(idx + 1));
    }
    let out = s.take(idx) + s.skip(idx + 1);
    assert forall|i: int, j: int| 0 <= i < j < out.len() implies lex_lt(
        #[trigger] out[i], #[trigger] out[j]) by {
        assert(forall|m: int| 0 <= m < idx ==> #[trigger] out[m] == s[m]);
        assert(forall|m: int| idx <= m < out.len() ==> #[trigger] out[m] == s[m + 1]);
    }
}

pub proof fn lemma_set_remove_absent(s: Seq<Seq<char>>, k: Seq<char>)
    requires
        !set_has(s, k),
    ensures
        set_remove(s, k) == s,
    decreases s.len(),
{
    if s.len() > 0 {
        assert(s[0] != k);
        let t = s.skip(1);
        assert(!set_has(t, k)) by {
            assert(forall|i: int| 0 <= i < t.len() ==> #[trigger] t[i] == s[i + 1]);
        }
        lemma_set_remove_absent(t, k);
        assert(seq![s[0]] + t =~= s);
    }
}

/// A deduplicated, ordered set of store keys, as a collection holds them.
#[derive(Debug)]
pub struct KeySet {
    items: Vec<String>,
}

impl KeySet {
    /// The members in ascending order.
    pub closed spec fn view(&self) -> Seq<Seq<char>> {
        Seq::new(self.items@.len(), |i: int| self.items@[i]@)
    }

    pub open spec fn wf(&self) -> bool {
        set_sorted(self.view())
    }

    pub fn new() -> (r: Self)
        ensures
            r.view() =~= Seq::<Seq<char>>::empty(),
            r.wf(),
    {
        KeySet { items: Vec::new() }
    }

    pub fn len(&self) -> (r: usize)
        ensures
            r == self.view().len(),
    {
        self.items.len()
    }

    pub fn get_index(&self, i: usize) -> (r: &String)
        requires
            i < self.view().len(),
        ensures
            r@ == self.view()[i as int],
    {
        &self.items[i]
    }

    fn scan(&self, k: &str) -> (idx: usize)
        requires
            self.wf(),
        ensures
            idx <= self.view().len(),
            forall|j: int| 0 <= j < idx ==> lex_lt(#[trigger] self.view()[j], k@),
            idx < self.view().len() ==> !lex_lt(self.view()[idx as int], k@),
    {
        let n = self.items.len();
        let mut idx: usize = 0;
        loop
            invariant
                idx <= n,
                n == self.view().len(),
                forall|j: int| 0 <= j < idx ==> lex_lt(#[trigger] self.view()[j], k@),
            decreases n - idx,
        {
            if idx == n {
                return idx;
            }
            let below = str_lt(self.items[idx].as_str(), k);
            if !below {
                return idx;
            }
            idx = idx + 1;
        }
    }

    pub fn contains(&self, k: &str) -> (r: bool)
        requires
            self.wf(),
        ensures
            r == set_has(self.view(), k@),
    {
        let idx = self.scan(k);
        if idx < self.items.len() {
            let eq = crate::text::str_eq(self.items[idx].as_str(), k);
            proof {
                if !eq {
                    lemma_lex_lt_strict(self.view()[idx as int], k@);
                    assert(lex_lt(k@, self.view()[idx as int]));
                    assert forall|i: int| 0 <= i < self.view().len() implies (
                        #[trigger] self.view()[i]) != k@ by {
                        if i < idx {
                            lemma_lex_lt_strict(self.view()[i], k@);
                        } else if i > idx {
                            lemma_lex_lt_trans(k@, self.view()[idx as int], self.view()[i]);
                            lemma_lex_lt_strict(k@, self.view()[i]);
                        }
                    }
                }
            }
            eq
        } else {
            proof {
                assert forall|i: int| 0 <= i < self.view().len() implies (
                    #[trigger] self.view()[i]) != k@ by {
                    lemma_lex_lt_strict(self.view()[i], k@);
                }
            }
            false
        }
    }

    /// Adds `k`; a present member is left alone, keeping set semantics.
    pub fn insert(&mut self, k: String)
        requires
            old(self).wf(),
        ensures
            final(self).view() == set_insert(old(self).view(), k@),
            final(self).wf(),
    {
        let ghost s = self.view();
        let idx = self.scan(k.as_str());
        proof {
            lemma_set_insert_splice(s, k@, idx as int);
        }
        if idx < self.items.len() {
            let eq = crate::text::str_eq(self.items[idx].as_str(), k.as_str());
            if eq {
                return;
            }
            proof {
                lemma_set_splice_sorted(s, k@, idx as int);
            }
        } else {
            proof {
                lemma_set_splice_sorted(s, k@, idx as int);
            }
        }
        self.items.insert(idx, k);
        proof {
            assert(self.view() =~= s.take(idx as int) + seq![k@] + s.skip(idx as int));
        }
    }

    /// Drops `k` when present.
    pub fn remove(&mut self, k: &str) -> (r: bool)
        requires
            old(self).wf(),
        ensures
            final(self).view() == set_remove(old(self).view(), k@),
            final(self).wf(),
            r == set_has(old(self).view(), k@),
    {
        let ghost s = self.view();
        let idx = self.scan(k);
        if idx < self.items.len() {
            let eq = crate::text::str_eq(self.items[idx].as_str(), k);
            if eq {
                proof {
                    lemma_set_remove_splice(s, k@, idx as int);
                }
                self.items.remove(idx);
                proof {
                    assert(self.view() =~= s.take(idx as int) + s.skip(idx as int + 1));
                }
                return true;
            }
            proof {
                lemma_lex_lt_strict(s[idx as int], k@);
                assert(lex_lt(k@, s[idx as int]));
                assert forall|i: int| 0 <= i < s.len() implies (#[trigger] s[i]) != k@ by {
                    if i < idx {
                        lemma_lex_lt_strict(s[i], k@);
                    } else if i > idx {
                        lemma_lex_lt_trans(k@, s[idx as int], s[i]);
                        lemma_lex_lt_strict(k@, s[i]);
                    }
                }
                lemma_set_remove_absent(s, k@);
            }
            false
        } else {
            proof {
                assert forall|i: int| 0 <= i < s.len() implies (#[trigger] s[i]) != k@ by {
                    lemma_lex_lt_strict(s[i], k@);
                }
                lemma_set_remove_absent(s, k@);
            }
            false
        }
    }

    /// Appends a member above every present one; used when rebuilding a set
    /// in ascending order.
    pub fn push_monotone(&mut self, k: String)
        requires
            old(self).wf(),
            old(self).view().len() > 0 ==> lex_lt(old(self).view().last(), k@),
        ensures
            final(self).view() == old(self).view().push(k@),
            final(self).wf(),
    {
        let ghost s = self.view();
        self.items.push(k);
        proof {
            assert(self.view() =~= s.push(k@));
            let out = self.view();
            assert forall|i: int, j: int| 0 <= i < j < out.len() implies lex_lt(
                #[trigger] out[i], #[trigger] out[j]) by {
                if j == out.len() - 1 {
                    if i < s.len() - 1 {
                        lemma_lex_lt_trans(s[i], s.last(), k@);
                    }
                }
            }
        }
    }

    /// A fresh set holding the same members.
    pub fn duplicate(&self) -> (r: Self)
        ensures
            r.view() == self.view(),
    {
        let n = self.items.len();
        let mut items: Vec<String> = Vec::new();
        let mut i: usize = 0;
        while i < n
            invariant
                i <= n,
                n == self.items@.len(),
                items@.len() == i,
                forall|j: int| 0 <= j < i ==> #[trigger] items@[j]@ == self.items@[j]@,
            decreases n - i,
        {
            items.push(self.items[i].clone());
            i = i + 1;
        }
        let r = KeySet { items };
        proof {
            assert(r.view() =~= self.view());
        }
        r
    }
}

impl DeepView for KeySet {
    type V = Seq<Seq<char>>;

    open spec fn deep_view(&self) -> Seq<Seq<char>> {
        self.view()
    }
}

/// Builds an ordered map from parsed pairs, draining them; refused unless
/// the keys come strictly ascending.
pub fn build_map<V: DeepView>(items: &mut Vec<(String, V)>) -> (r: Option<OrderedMap<V>>)
    ensures
        match r {
            Some(m) => m@ == old(items).deep_view() && m.wf(),
            None => !map_sorted(old(items).deep_view()),
        },
{
    let ghost orig = items.deep_view();
    let mut m: OrderedMap<V> = OrderedMap::new();
    let mut prev: Option<String> = None;
    let ghost mut consumed: int = 0;
    proof {
        assert(orig.take(0) =~= Seq::<(Seq<char>, V::V)>::empty());
        assert(items.deep_view() =~= orig.skip(0));
    }
    loop
        invariant
            0 <= consumed <= orig.len(),
            orig == old(items).deep_view(),
            items.deep_view() == orig.skip(consumed),
            m@ == orig.take(consumed),
            m.wf(),
            consumed > 0 ==> prev is Some && prev->Some_0@ == orig[consumed - 1].0,
            consumed == 0 ==> prev is None,
        decreases orig.len() - consumed,
    {
        if items.len() == 0 {
            proof {
                assert(orig.skip(consumed).len() == 0);
                assert(orig.take(consumed) =~= orig);
            }
            return Some(m);
        }
        let ghost tail = orig.skip(consumed);
        let ghost before = items@;
        proof {
            assert(tail.len() > 0);
            assert(tail[0] == orig[consumed]);
            assert(items.deep_view()[0] == (items@[0].0@, items@[0].1.deep_view()));
        }
        let pair = items.remove(0);
        proof {
            assert(items@ =~= before.skip(1));
            assert forall|j: int| 0 <= j < items.deep_view().len() implies items.deep_view()[j]
                == orig.skip(consumed + 1)[j] by {
                assert(items@[j] == before[j + 1]);
                assert(orig.skip(consumed + 1)[j] == orig[consumed + 1 + j]);
                assert(orig.skip(consumed)[j + 1] == orig[consumed + 1 + j]);
            }
            assert(items.deep_view() =~= orig.skip(consumed + 1));
            assert(pair.0@ == orig[consumed].0 && pair.1.deep_view() == orig[consumed].1);
        }
        match &prev {
            Some(p) => {
                if !str_lt(p.as_str(), pair.0.as_str()) {
                    proof {
                        assert(orig[consumed - 1].0 == p@);
                        assert(!lex_lt(orig[consumed - 1].0, orig[consumed].0));
                        assert(!map_sorted(orig));
                    }
                    return None;
                }
            },
            None => {},
        }
        proof {
            if consumed > 0 {
                assert(m@.last() == orig[consumed - 1]);
                assert(lex_lt(m@.last().0, pair.0@));
            }
        }
        prev = Some(pair.0.clone());
        m.push_monotone(pair.0, pair.1);
        proof {
            consumed = consumed + 1;
            assert(m@ =~= orig.take(consumed));
        }
    }
}

/// Builds a key set from parsed members, draining them; refused unless they
/// come strictly ascending.
pub fn build_keyset(items: &mut Vec<String>) -> (r: Option<KeySet>)
    ensures
        match r {
            Some(ks) => ks.view() == old(items).deep_view() && ks.wf(),
            None => !set_sorted(old(items).deep_view()),
        },
{
    let ghost orig = items.deep_view();
    let mut ks = KeySet::new();
    let mut prev: Option<String> = None;
    let ghost mut consumed: int = 0;
    proof {
        assert(orig.take(0) =~= Seq::<Seq<char>>::empty());
        assert(items.deep_view() =~= orig.skip(0));
    }
    loop
        invariant
            0 <= consumed <= orig.len(),
            orig == old(items).deep_view(),
            items.deep_view() == orig.skip(consumed),
            ks.view() == orig.take(consumed),
            ks.wf(),
            consumed > 0 ==> prev is Some && prev->Some_0@ == orig[consumed - 1],
            consumed == 0 ==> prev is None,
        decreases orig.len() - consumed,
    {
        if items.len() == 0 {
            proof {
                assert(orig.skip(consumed).len() == 0);
                assert(orig.take(consumed) =~= orig);
            }
            return Some(ks);
        }
        let ghost tail = orig.skip(consumed);
        let ghost before = items@;
        proof {
            assert(tail.len() > 0);
            assert(tail[0] == orig[consumed]);
            assert(items.deep_view()[0] == items@[0]@);
        }
        let member = items.remove(0);
        proof {
            assert(items@ =~= before.skip(1));
            assert forall|j: int| 0 <= j < items.deep_view().len() implies items.deep_view()[j]
                == orig.skip(consumed + 1)[j] by {
                assert(items@[j] == before[j + 1]);
                assert(orig.skip(consumed + 1)[j] == orig[consumed + 1 + j]);
                assert(orig.skip(consumed)[j + 1] == orig[consumed + 1 + j]);
            }
            assert(items.deep_view() =~= orig.skip(consumed + 1));
            assert(member@ == orig[consumed]);
        }
        match &prev {
            Some(p) => {
                if !str_lt(p.as_str(), member.as_str()) {
                    proof {
                        assert(orig[consumed - 1] == p@);
                        assert(!lex_lt(orig[consumed - 1], orig[consumed]));
                        assert(!set_sorted(orig));
                    }
                    return None;
                }
            },
            None => {},
        }
        proof {
            if consumed > 0 {
                assert(ks.view().last() == orig[consumed - 1]);
                assert(lex_lt(ks.view().last(), member@));
            }
        }
        prev = Some(member.clone());
        ks.push_monotone(member);
        proof {
            consumed = consumed + 1;
            assert(ks.view() =~= orig.take(consumed));
        }
    }
}


} // verus!
