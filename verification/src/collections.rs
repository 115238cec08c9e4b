//! Association-list collections with mathematical map and set views.
//!
//! The ledger keys its stores by outpoints and block hashes, which are
//! compound values; these lists carry an explicit no-duplicate-keys
//! invariant and expose their contents as `Map` and `Set` views.

use vstd::prelude::*;

verus! {

/// Executable equality that agrees with mathematical equality.
pub trait ExecEq: Sized {
    fn exec_eq(&self, other: &Self) -> (r: bool)
        ensures
            r == (*self == *other),
    ;
}

impl ExecEq for crate::types::OutPoint {
    fn exec_eq(&self, other: &Self) -> (r: bool) {
        self.eq_point(other)
    }
}

impl ExecEq for crate::hashes::BlockHash {
    fn exec_eq(&self, other: &Self) -> (r: bool) {
        self.eq_hash(other)
    }
}

impl ExecEq for crate::types::Output {
    fn exec_eq(&self, other: &Self) -> (r: bool) {
        self.eq_output(other)
    }
}

impl ExecEq for crate::types::Header {
    fn exec_eq(&self, other: &Self) -> (r: bool) {
        self.eq_header(other)
    }
}

/// No two entries share a key.
pub open spec fn no_dup_keys<K, V>(s: Seq<(K, V)>) -> bool {
    forall|i: int, j: int| 0 <= i < j < s.len() ==> s[i].0 != s[j].0
}

/// The mathematical map an entry sequence denotes; later entries win.
pub open spec fn spec_map_of<K, V>(s: Seq<(K, V)>) -> Map<K, V>
    decreases s.len(),
{
    if s.len() == 0 {
        Map::empty()
    } else {
        spec_map_of(s.drop_last()).insert(s.last().0, s.last().1)
    }
}

/// Some entry of `s` holds the key `k`.
pub open spec fn seq_has_key<K, V>(s: Seq<(K, V)>, k: K) -> bool {
    exists|i: int| 0 <= i < s.len() && (#[trigger] s[i]).0 == k
}

/// Key membership over all entries is key membership over all but the
/// last, or the last entry's key.
pub proof fn lemma_seq_has_key_snoc<K, V>(s: Seq<(K, V)>)
    requires
        s.len() > 0,
    ensures
        forall|k: K|
            #[trigger] seq_has_key(s, k) <==> (seq_has_key(s.drop_last(), k) || s.last().0 == k),
{
    let pre = s.drop_last();
    assert forall|k: K| #[trigger] seq_has_key(s, k) implies (seq_has_key(pre, k) || s.last().0
        == k) by {
        let i = choose|i: int| 0 <= i < s.len() && (#[trigger] s[i]).0 == k;
        if i < s.len() - 1 {
            assert(pre[i] == s[i]);
            assert(seq_has_key(pre, k));
        } else {
            assert(s[i] == s.last());
        }
    }
    assert forall|k: K| (seq_has_key(pre, k) || s.last().0 == k) implies #[trigger] seq_has_key(
        s,
        k,
    ) by {
        if seq_has_key(pre, k) {
            let i = choose|i: int| 0 <= i < pre.len() && (#[trigger] pre[i]).0 == k;
            assert(s[i] == pre[i]);
        } else {
            assert(s[s.len() - 1] == s.last());
        }
    }
}

/// Membership and lookup in `spec_map_of` in terms of the entry sequence.
pub proof fn lemma_map_of_props<K, V>(s: Seq<(K, V)>)
    ensures
        forall|k: K| #[trigger] spec_map_of(s).contains_key(k) <==> seq_has_key(s, k),
        no_dup_keys(s) ==> forall|i: int|
            0 <= i < s.len() ==> spec_map_of(s).contains_key(#[trigger] s[i].0)
                && spec_map_of(s)[s[i].0] == s[i].1,
    decreases s.len(),
{
    if s.len() > 0 {
        lemma_map_of_props(s.drop_last());
        let pre = s.drop_last();
        assert forall|k: K| #[trigger] spec_map_of(s).contains_key(k) implies seq_has_key(s, k) by {
            if k == s.last().0 {
                assert(s[s.len() - 1] == s.last());
                assert(seq_has_key(s, k));
            } else {
                assert(spec_map_of(pre).contains_key(k));
                assert(seq_has_key(pre, k));
                let i = choose|i: int| 0 <= i < pre.len() && (#[trigger] pre[i]).0 == k;
                assert(pre[i] == s[i]);
                assert(seq_has_key(s, k));
            }
        }
        assert forall|k: K| seq_has_key(s, k) implies #[trigger] spec_map_of(s).contains_key(k) by {
            let i = choose|i: int| 0 <= i < s.len() && (#[trigger] s[i]).0 == k;
            if i == s.len() - 1 {
                assert(s[i] == s.last());
            } else {
                assert(pre[i] == s[i]);
                assert(seq_has_key(pre, k));
                assert(spec_map_of(pre).contains_key(k));
            }
        }
        if no_dup_keys(s) {
            assert(no_dup_keys(pre)) by {
                assert forall|i: int, j: int| 0 <= i < j < pre.len() implies (#[trigger] pre[i]).0
                    != (#[trigger] pre[j]).0 by {
                    assert(pre[i] == s[i] && pre[j] == s[j]);
                }
            }
            assert forall|i: int| 0 <= i < s.len() implies spec_map_of(s).contains_key(
                #[trigger] s[i].0,
            ) && spec_map_of(s)[s[i].0] == s[i].1 by {
                if i == s.len() - 1 {
                    assert(s[i] == s.last());
                } else {
                    assert(s[i].0 != s[s.len() - 1].0);
                    assert(pre[i] == s[i]);
                }
            }
        }
    }
}

/// Removing entry `i` removes exactly its key from the denoted map.
pub proof fn lemma_map_of_remove<K, V>(s: Seq<(K, V)>, i: int)
    requires
        no_dup_keys(s),
        0 <= i < s.len(),
    ensures
        spec_map_of(s.remove(i)) == spec_map_of(s).remove(s[i].0),
    decreases s.len(),
{
    lemma_map_of_props(s);
    let pre = s.drop_last();
    assert(no_dup_keys(pre)) by {
        assert forall|x: int, y: int| 0 <= x < y < pre.len() implies pre[x].0 != pre[y].0 by {
            assert(s[x].0 != s[y].0);
        }
    }
    lemma_map_of_props(pre);
    if i == s.len() - 1 {
        assert(s.remove(i) =~= pre);
        assert(!spec_map_of(pre).contains_key(s[i].0)) by {
            if spec_map_of(pre).contains_key(s[i].0) {
                let j = choose|j: int| 0 <= j < pre.len() && pre[j].0 == s[i].0;
                assert(s[j].0 == s[i].0);
            }
        }
        assert(spec_map_of(s).remove(s[i].0) =~= spec_map_of(pre));
    } else {
        lemma_map_of_remove(pre, i);
        assert(s.remove(i).drop_last() =~= pre.remove(i));
        assert(s.remove(i).last() == s.last());
        assert(s.remove(i).len() == s.len() - 1 > 0);
        assert(spec_map_of(s.remove(i)) == spec_map_of(pre.remove(i)).insert(
            s.last().0,
            s.last().1,
        ));
        assert(s[i].0 != s.last().0);
        assert(spec_map_of(pre).remove(s[i].0).insert(s.last().0, s.last().1) =~= spec_map_of(
            pre,
        ).insert(s.last().0, s.last().1).remove(s[i].0));
    }
}

/// An association-list map with unique keys and a `Map` view.
pub struct AssocMap<K, V> {
    entries: Vec<(K, V)>,
}

impl<K, V> View for AssocMap<K, V> {
    type V = Map<K, V>;

    closed spec fn view(&self) -> Map<K, V> {
        spec_map_of(self.entries@)
    }
}

impl<K: ExecEq, V> AssocMap<K, V> {
    /// The stored entries, in insertion order.
    pub closed spec fn entries_view(self) -> Seq<(K, V)> {
        self.entries@
    }

    /// Well-formed: no two entries share a key.
    pub closed spec fn wf(self) -> bool {
        no_dup_keys(self.entries@)
    }

    /// What the entry sequence says about the map view.
    pub proof fn lemma_entries(self)
        requires
            self.wf(),
        ensures
            no_dup_keys(self.entries_view()),
            forall|i: int|
                0 <= i < self.entries_view().len() ==> self@.contains_key(
                    #[trigger] self.entries_view()[i].0,
                ) && self@[self.entries_view()[i].0] == self.entries_view()[i].1,
            forall|k: K|
                #[trigger] self@.contains_key(k) ==> exists|i: int|
                    0 <= i < self.entries_view().len() && self.entries_view()[i].0 == k,
    {
        lemma_map_of_props(self.entries@);
    }

    pub fn new() -> (r: Self)
        ensures
            r.wf(),
            r@ == Map::<K, V>::empty(),
            r.entries_view() == Seq::<(K, V)>::empty(),
    {
        AssocMap { entries: Vec::new() }
    }

    pub fn num_entries(&self) -> (r: usize)
        ensures
            r == self.entries_view().len(),
    {
        self.entries.len()
    }

    pub fn entry_at(&self, i: usize) -> (r: &(K, V))
        requires
            i < self.entries_view().len(),
        ensures
            *r == self.entries_view()[i as int],
    {
        &self.entries[i]
    }

    /// The index of the entry holding `k`, if one does.
    fn find_index(&self, k: &K) -> (r: Option<usize>)
        ensures
            match r {
                Some(i) => i < self.entries_view().len() && self.entries_view()[i as int].0 == *k,
                None => !seq_has_key(self.entries_view(), *k),
            },
    {
        let mut i: usize = 0;
        while i < self.entries.len()
            invariant
                0 <= i <= self.entries@.len(),
                forall|j: int| 0 <= j < i ==> (#[trigger] self.entries@[j]).0 != *k,
            decreases self.entries@.len() - i,
        {
            if self.entries[i].0.exec_eq(k) {
                return Some(i);
            }
            i += 1;
        }
        None
    }

    pub fn contains_key(&self, k: &K) -> (r: bool)
        requires
            self.wf(),
        ensures
            r == self@.contains_key(*k),
    {
        proof {
            lemma_map_of_props(self.entries@);
        }
        self.find_index(k).is_some()
    }

    pub fn get(&self, k: &K) -> (r: Option<&V>)
        requires
            self.wf(),
        ensures
            match r {
                Some(v) => self@.contains_key(*k) && *v == self@[*k],
                None => !self@.contains_key(*k),
            },
    {
        proof {
            lemma_map_of_props(self.entries@);
        }
        match self.find_index(k) {
            Some(i) => Some(&self.entries[i].1),
            None => None,
        }
    }

    /// Inserts or overwrites the value for `k`.
    pub fn insert(&mut self, k: K, v: V)
        requires
            old(self).wf(),
        ensures
            final(self).wf(),
            final(self)@ == old(self)@.insert(k, v),
    {
        proof {
            lemma_map_of_props(self.entries@);
        }
        match self.find_index(&k) {
            Some(i) => {
                proof {
                    lemma_map_of_remove(self.entries@, i as int);
                }
                let ghost before = self.entries@;
                self.entries.remove(i);
                proof {
                    assert forall|x: int, y: int|
                        0 <= x < y < self.entries@.len() implies self.entries@[x].0
                        != self.entries@[y].0 by {
                        let bx = if x < i { x } else { x + 1 };
                        let by = if y < i { y } else { y + 1 };
                        assert(before[bx].0 != before[by].0);
                    }
                    lemma_map_of_props(self.entries@);
                }
                self.push_new(k, v);
                proof {
                    assert(final(self)@ =~= old(self)@.insert(k, v));
                }
            },
            None => {
                self.push_new(k, v);
            },
        }
    }

    /// Appends an entry whose key is absent.
    fn push_new(&mut self, k: K, v: V)
        requires
            old(self).wf(),
            !old(self)@.contains_key(k),
        ensures
            final(self).wf(),
            final(self)@ == old(self)@.insert(k, v),
            final(self).entries_view() == old(self).entries_view().push((k, v)),
    {
        proof {
            lemma_map_of_props(self.entries@);
        }
        let ghost before = self.entries@;
        self.entries.push((k, v));
        proof {
            assert(self.entries@.drop_last() =~= before);
            assert forall|x: int, y: int| 0 <= x < y < self.entries@.len() implies self.entries@[x].0
                != self.entries@[y].0 by {
                if y < self.entries@.len() - 1 {
                    assert(before[x].0 != before[y].0);
                } else {
                    assert(self.entries@[y] == (k, v));
                    if self.entries@[x].0 == k {
                        assert(before[x].0 == k);
                        lemma_map_of_props(before);
                    }
                }
            }
        }
    }

    /// Removes the entry for `k`, if one exists.
    pub fn remove(&mut self, k: &K)
        requires
            old(self).wf(),
        ensures
            final(self).wf(),
            final(self)@ == old(self)@.remove(*k),
    {
        proof {
            lemma_map_of_props(self.entries@);
        }
        match self.find_index(k) {
            Some(i) => {
                proof {
                    lemma_map_of_remove(self.entries@, i as int);
                }
                let ghost before = self.entries@;
                self.entries.remove(i);
                proof {
                    assert forall|x: int, y: int|
                        0 <= x < y < self.entries@.len() implies self.entries@[x].0
                        != self.entries@[y].0 by {
                        let bx = if x < i { x } else { x + 1 };
                        let by = if y < i { y } else { y + 1 };
                        assert(before[bx].0 != before[by].0);
                    }
                }
            },
            None => {
                proof {
                    assert(final(self)@ =~= old(self)@.remove(*k));
                }
            },
        }
    }
}

impl<K: ExecEq + Copy, V: ExecEq> AssocMap<K, V> {
    /// Whether two maps hold exactly the same keys and values.
    pub fn map_eq(&self, other: &Self) -> (r: bool)
        requires
            self.wf(),
            other.wf(),
        ensures
            r == (self@ == other@),
    {
        proof {
            self.lemma_entries();
            other.lemma_entries();
        }
        let n = self.num_entries();
        let mut i: usize = 0;
        while i < n
            invariant
                self.wf(),
                other.wf(),
                n == self.entries_view().len(),
                0 <= i <= n,
                forall|j: int|
                    0 <= j < self.entries_view().len() ==> self@.contains_key(
                        (#[trigger] self.entries_view()[j]).0,
                    ) && self@[self.entries_view()[j].0] == self.entries_view()[j].1,
                forall|j: int|
                    0 <= j < i ==> other@.contains_key((#[trigger] self.entries_view()[j]).0)
                        && other@[self.entries_view()[j].0] == self.entries_view()[j].1,
            decreases n - i,
        {
            let entry = self.entry_at(i);
            match other.get(&entry.0) {
                Some(v) => {
                    if !entry.1.exec_eq(v) {
                        proof {
                            assert(self@[entry.0] != other@[entry.0]);
                        }
                        return false;
                    }
                },
                None => {
                    proof {
                        assert(self@.contains_key(entry.0) && !other@.contains_key(entry.0));
                    }
                    return false;
                },
            }
            i += 1;
        }
        let m = other.num_entries();
        let mut j: usize = 0;
        while j < m
            invariant
                self.wf(),
                other.wf(),
                m == other.entries_view().len(),
                0 <= j <= m,
                forall|a: int|
                    0 <= a < self.entries_view().len() ==> other@.contains_key(
                        (#[trigger] self.entries_view()[a]).0,
                    ) && other@[self.entries_view()[a].0] == self.entries_view()[a].1,
                forall|a: int|
                    0 <= a < other.entries_view().len() ==> other@.contains_key(
                        (#[trigger] other.entries_view()[a]).0,
                    ) && other@[other.entries_view()[a].0] == other.entries_view()[a].1,
                forall|a: int|
                    0 <= a < j ==> self@.contains_key((#[trigger] other.entries_view()[a]).0),
            decreases m - j,
        {
            let entry = other.entry_at(j);
            if !self.contains_key(&entry.0) {
                proof {
                    assert(other@.contains_key(entry.0) && !self@.contains_key(entry.0));
                }
                return false;
            }
            j += 1;
        }
        proof {
            self.lemma_entries();
            other.lemma_entries();
            assert forall|k: K| #[trigger] self@.contains_key(k) implies other@.contains_key(k)
                && self@[k] == other@[k] by {
                let a = choose|a: int|
                    0 <= a < self.entries_view().len() && self.entries_view()[a].0 == k;
                assert(other@.contains_key(self.entries_view()[a].0));
            }
            assert forall|k: K| #[trigger] other@.contains_key(k) implies self@.contains_key(
                k,
            ) by {
                let a = choose|a: int|
                    0 <= a < other.entries_view().len() && other.entries_view()[a].0 == k;
                assert(self@.contains_key(other.entries_view()[a].0));
            }
            assert(self@ =~= other@);
        }
        true
    }
}

/// A set of keys with a `Set` view, backed by an association list.
pub struct KeySet<K> {
    items: AssocMap<K, ()>,
}

impl<K> View for KeySet<K> {
    type V = Set<K>;

    closed spec fn view(&self) -> Set<K> {
        self.items@.dom()
    }
}

impl<K: ExecEq + Copy> KeySet<K> {
    /// The stored keys, in insertion order.
    pub closed spec fn keys_view(self) -> Seq<K> {
        self.items.entries_view().map_values(|p: (K, ())| p.0)
    }

    pub closed spec fn wf(self) -> bool {
        self.items.wf()
    }

    /// What the key sequence says about the set view.
    pub proof fn lemma_keys(self)
        requires
            self.wf(),
        ensures
            forall|i: int, j: int|
                0 <= i < j < self.keys_view().len() ==> self.keys_view()[i] != self.keys_view()[j],
            forall|i: int|
                0 <= i < self.keys_view().len() ==> self@.contains(#[trigger] self.keys_view()[i]),
            forall|k: K|
                #[trigger] self@.contains(k) ==> exists|i: int|
                    0 <= i < self.keys_view().len() && self.keys_view()[i] == k,
    {
        self.items.lemma_entries();
        assert forall|k: K| #[trigger] self@.contains(k) implies exists|i: int|
            0 <= i < self.keys_view().len() && self.keys_view()[i] == k by {
            let i = choose|i: int|
                0 <= i < self.items.entries_view().len() && self.items.entries_view()[i].0 == k;
            assert(self.keys_view()[i] == k);
        }
    }

    pub fn new() -> (r: Self)
        ensures
            r.wf(),
            r@ == Set::<K>::empty(),
    {
        let r = KeySet { items: AssocMap::new() };
        proof {
            assert(r@ =~= Set::<K>::empty());
        }
        r
    }

    pub fn num_keys(&self) -> (r: usize)
        ensures
            r == self.keys_view().len(),
    {
        self.items.num_entries()
    }

    pub fn key_at(&self, i: usize) -> (r: K)
        requires
            i < self.keys_view().len(),
        ensures
            r == self.keys_view()[i as int],
    {
        self.items.entry_at(i).0
    }

    pub fn contains(&self, k: &K) -> (r: bool)
        requires
            self.wf(),
        ensures
            r == self@.contains(*k),
    {
        self.items.contains_key(k)
    }

    pub fn insert(&mut self, k: K)
        requires
            old(self).wf(),
        ensures
            final(self).wf(),
            final(self)@ == old(self)@.insert(k),
    {
        self.items.insert(k, ());
        proof {
            assert(final(self)@ =~= old(self)@.insert(k));
        }
    }

    pub fn remove(&mut self, k: &K)
        requires
            old(self).wf(),
        ensures
            final(self).wf(),
            final(self)@ == old(self)@.remove(*k),
    {
        self.items.remove(k);
        proof {
            assert(final(self)@ =~= old(self)@.remove(*k));
        }
    }

    /// Whether two sets hold exactly the same keys.
    pub fn set_eq(&self, other: &Self) -> (r: bool)
        requires
            self.wf(),
            other.wf(),
        ensures
            r == (self@ == other@),
    {
        proof {
            self.lemma_keys();
            other.lemma_keys();
        }
        let n = self.num_keys();
        let mut i: usize = 0;
        while i < n
            invariant
                self.wf(),
                other.wf(),
                n == self.keys_view().len(),
                0 <= i <= n,
                forall|a: int|
                    0 <= a < self.keys_view().len() ==> self@.contains(
                        #[trigger] self.keys_view()[a],
                    ),
                forall|a: int| 0 <= a < i ==> other@.contains(#[trigger] self.keys_view()[a]),
            decreases n - i,
        {
            let k = self.key_at(i);
            if !other.contains(&k) {
                proof {
                    assert(self@.contains(k) && !other@.contains(k));
                }
                return false;
            }
            i += 1;
        }
        let m = other.num_keys();
        let mut j: usize = 0;
        while j < m
            invariant
                self.wf(),
                other.wf(),
                m == other.keys_view().len(),
                0 <= j <= m,
                forall|a: int|
                    0 <= a < self.keys_view().len() ==> other@.contains(
                        #[trigger] self.keys_view()[a],
                    ),
                forall|a: int|
                    0 <= a < other.keys_view().len() ==> other@.contains(
                        #[trigger] other.keys_view()[a],
                    ),
                forall|a: int| 0 <= a < j ==> self@.contains(#[trigger] other.keys_view()[a]),
            decreases m - j,
        {
            let k = other.key_at(j);
            if !self.contains(&k) {
                proof {
                    assert(other@.contains(k) && !self@.contains(k));
                }
                return false;
            }
            j += 1;
        }
        proof {
            self.lemma_keys();
            other.lemma_keys();
            assert forall|k: K| #[trigger] self@.contains(k) implies other@.contains(k) by {
                let a = choose|a: int|
                    0 <= a < self.keys_view().len() && self.keys_view()[a] == k;
                assert(other@.contains(self.keys_view()[a]));
            }
            assert forall|k: K| #[trigger] other@.contains(k) implies self@.contains(k) by {
                let a = choose|a: int|
                    0 <= a < other.keys_view().len() && other.keys_view()[a] == k;
                assert(self@.contains(other.keys_view()[a]));
            }
            assert(self@ =~= other@);
        }
        true
    }
}

} // verus!
