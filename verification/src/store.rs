//! A small association map from 128-bit keys to values, backed by a vector of
//! key/value pairs with pairwise-distinct keys. Both the room collection and
//! the quota tracker's two tables are instances of it.

use vstd::prelude::*;

verus! {

/// The mathematical map described by a sequence of key/value pairs; a later
/// pair wins over an earlier one with the same key.
pub open spec fn map_of<V>(s: Seq<(u128, V)>) -> Map<u128, V>
    decreases s.len(),
{
    if s.len() == 0 {
        Map::empty()
    } else {
        map_of(s.drop_last()).insert(s.last().0, s.last().1)
    }
}

/// No two pairs of `s` share a key.
pub open spec fn keys_distinct<V>(s: Seq<(u128, V)>) -> bool {
    forall|i: int, j: int| 0 <= i < j < s.len() ==> s[i].0 != s[j].0
}

/// A key is in `map_of(s)` exactly when some pair of `s` carries it.
pub proof fn lemma_map_of_dom<V>(s: Seq<(u128, V)>)
    ensures
        forall|k: u128|
            #[trigger] map_of(s).contains_key(k) <==> exists|j: int|
                0 <= j < s.len() && s[j].0 == k,
    decreases s.len(),
{
    if s.len() == 0 {
    } else {
        lemma_map_of_dom(s.drop_last());
        assert forall|k: u128| #[trigger] map_of(s).contains_key(k) implies exists|j: int|
            0 <= j < s.len() && s[j].0 == k by {
            if k == s.last().0 {
                assert(s[s.len() - 1].0 == k);
            } else {
                assert(map_of(s.drop_last()).contains_key(k));
                let j = choose|j: int| 0 <= j < s.drop_last().len() && s.drop_last()[j].0 == k;
                assert(s.drop_last()[j] == s[j]);
                assert(s[j].0 == k);
            }
        }
        assert forall|k: u128| (exists|j: int| 0 <= j < s.len() && s[j].0 == k) implies #[trigger]
            map_of(s).contains_key(k) by {
            let j = choose|j: int| 0 <= j < s.len() && s[j].0 == k;
            if j < s.len() - 1 {
                assert(s.drop_last()[j].0 == k);
                assert(exists|i: int| 0 <= i < s.drop_last().len() && s.drop_last()[i].0 == k);
                assert(map_of(s.drop_last()).contains_key(k));
            } else {
                assert(k == s.last().0);
            }
        }
    }
}

/// A key carried by no pair of `s` is not in `map_of(s)`.
pub proof fn lemma_not_in_map<V>(s: Seq<(u128, V)>, k: u128)
    requires
        forall|i: int| 0 <= i < s.len() ==> s[i].0 != k,
    ensures
        !map_of(s).contains_key(k),
{
    lemma_map_of_dom(s);
    if map_of(s).contains_key(k) {
        let j = choose|j: int| 0 <= j < s.len() && s[j].0 == k;
        assert(s[j].0 != k);
    }
}

/// Dropping the last pair keeps the keys pairwise distinct.
pub proof fn lemma_distinct_drop_last<V>(s: Seq<(u128, V)>)
    requires
        keys_distinct(s),
        s.len() > 0,
    ensures
        keys_distinct(s.drop_last()),
{
    assert forall|i: int, j: int| 0 <= i < j < s.drop_last().len() implies s.drop_last()[i].0
        != s.drop_last()[j].0 by {
        assert(s[i].0 != s[j].0);
    }
}

/// Under distinct keys, the pair at index `j` is what the map holds for its key.
pub proof fn lemma_map_of_at<V>(s: Seq<(u128, V)>, j: int)
    requires
        keys_distinct(s),
        0 <= j < s.len(),
    ensures
        map_of(s).contains_key(s[j].0),
        map_of(s)[s[j].0] == s[j].1,
    decreases s.len(),
{
    if j == s.len() - 1 {
    } else {
        lemma_distinct_drop_last(s);
        lemma_map_of_at(s.drop_last(), j);
        assert(s.drop_last()[j] == s[j]);
        assert(s.last().0 != s[j].0);
    }
}

/// Appending a pair inserts its key.
pub proof fn lemma_map_of_push<V>(s: Seq<(u128, V)>, k: u128, v: V)
    ensures
        map_of(s.push((k, v))) == map_of(s).insert(k, v),
{
    assert(s.push((k, v)).drop_last() =~= s);
    assert(s.push((k, v)).last() == (k, v));
}

/// Replacing the value at index `j` (key unchanged) is an insert for that key.
pub proof fn lemma_map_of_update<V>(s: Seq<(u128, V)>, j: int, v: V)
    requires
        keys_distinct(s),
        0 <= j < s.len(),
    ensures
        map_of(s.update(j, (s[j].0, v))) == map_of(s).insert(s[j].0, v),
    decreases s.len(),
{
    let t = s.update(j, (s[j].0, v));
    if j == s.len() - 1 {
        assert(t.drop_last() =~= s.drop_last());
        assert(t.last() == (s[j].0, v));
        assert(map_of(s.drop_last()).insert(s[j].0, s[j].1).insert(s[j].0, v) =~= map_of(
            s.drop_last(),
        ).insert(s[j].0, v));
    } else {
        lemma_distinct_drop_last(s);
        assert(s.drop_last()[j] == s[j]);
        lemma_map_of_update(s.drop_last(), j, v);
        assert(t.drop_last() =~= s.drop_last().update(j, (s[j].0, v)));
        assert(t.last() == s.last());
        assert(s.last().0 != s[j].0);
        assert(map_of(s.drop_last()).insert(s[j].0, v).insert(s.last().0, s.last().1) =~= map_of(
            s.drop_last(),
        ).insert(s.last().0, s.last().1).insert(s[j].0, v));
    }
}

/// Removing a pair keeps the keys pairwise distinct.
pub proof fn lemma_distinct_remove<V>(s: Seq<(u128, V)>, j: int)
    requires
        keys_distinct(s),
        0 <= j < s.len(),
    ensures
        keys_distinct(s.remove(j)),
{
    let t = s.remove(j);
    assert forall|a: int, b: int| 0 <= a < b < t.len() implies t[a].0 != t[b].0 by {
        let a0: int = if a < j {
            a
        } else {
            a + 1
        };
        let b0: int = if b < j {
            b
        } else {
            b + 1
        };
        assert(t[a] == s[a0]);
        assert(t[b] == s[b0]);
        assert(s[a0].0 != s[b0].0);
    }
}

/// Removing the pair at index `j` removes its key from the map.
pub proof fn lemma_map_of_remove<V>(s: Seq<(u128, V)>, j: int)
    requires
        keys_distinct(s),
        0 <= j < s.len(),
    ensures
        map_of(s.remove(j)) == map_of(s).remove(s[j].0),
    decreases s.len(),
{
    let t = s.remove(j);
    if j == s.len() - 1 {
        assert(t =~= s.drop_last());
        lemma_map_of_dom(s.drop_last());
        assert(!map_of(s.drop_last()).contains_key(s[j].0)) by {
            if map_of(s.drop_last()).contains_key(s[j].0) {
                let i = choose|i: int|
                    0 <= i < s.drop_last().len() && s.drop_last()[i].0 == s[j].0;
                assert(s[i].0 == s[j].0);
            }
        }
        assert(map_of(s.drop_last()).insert(s[j].0, s[j].1).remove(s[j].0) =~= map_of(
            s.drop_last(),
        ));
    } else {
        lemma_distinct_drop_last(s);
        assert(s.drop_last()[j] == s[j]);
        lemma_map_of_remove(s.drop_last(), j);
        assert(t.drop_last() =~= s.drop_last().remove(j));
        assert(t.last() == s.last());
        assert(s.last().0 != s[j].0);
        assert(map_of(s.drop_last()).remove(s[j].0).insert(s.last().0, s.last().1) =~= map_of(
            s.drop_last(),
        ).insert(s.last().0, s.last().1).remove(s[j].0));
    }
}

/// An association map with 128-bit keys, held as a vector of pairs whose keys
/// are pairwise distinct. Its abstract value is `map_of` the pair sequence.
pub struct IdMap<V> {
    pub entries: Vec<(u128, V)>,
}

impl<V> View for IdMap<V> {
    type V = Map<u128, V>;

    open spec fn view(&self) -> Map<u128, V> {
        map_of(self.entries@)
    }
}

impl<V> IdMap<V> {
    /// The underlying pair sequence, in insertion order.
    pub open spec fn seq(&self) -> Seq<(u128, V)> {
        self.entries@
    }

    /// Well-formed: no two pairs share a key.
    pub open spec fn wf(&self) -> bool {
        keys_distinct(self.entries@)
    }

    pub fn new() -> (r: Self)
        ensures
            r.wf(),
            r.seq() == Seq::<(u128, V)>::empty(),
            r@ == Map::<u128, V>::empty(),
    {
        IdMap { entries: Vec::new() }
    }

    pub fn len(&self) -> (n: usize)
        ensures
            n == self.seq().len(),
    {
        self.entries.len()
    }

    pub fn at(&self, j: usize) -> (r: &(u128, V))
        requires
            j < self.seq().len(),
        ensures
            *r == self.seq()[j as int],
    {
        &self.entries[j]
    }

    /// The index of the pair carrying `k`, if any.
    pub fn index_of(&self, k: u128) -> (r: Option<usize>)
        ensures
            match r {
                Some(j) => j < self.seq().len() && self.seq()[j as int].0 == k,
                None => forall|i: int| 0 <= i < self.seq().len() ==> self.seq()[i].0 != k,
            },
    {
        let mut j: usize = 0;
        while j < self.entries.len()
            invariant
                j <= self.entries@.len(),
                forall|i: int| 0 <= i < j ==> self.entries@[i].0 != k,
            decreases self.entries@.len() - j,
        {
            if self.entries[j].0 == k {
                return Some(j);
            }
            j += 1;
        }
        None
    }

    pub fn get(&self, k: u128) -> (r: Option<&V>)
        requires
            self.wf(),
        ensures
            r is Some <==> self@.contains_key(k),
            r matches Some(v) ==> self@.contains_key(k) && *v == self@[k],
    {
        match self.index_of(k) {
            Some(j) => {
                proof {
                    lemma_map_of_dom(self.entries@);
                    lemma_map_of_at(self.entries@, j as int);
                }
                Some(&self.entries[j].1)
            },
            None => {
                proof {
                    assert forall|i: int| 0 <= i < self.entries@.len() implies self.entries@[i].0
                        != k by {
                        assert(self.seq()[i].0 != k);
                    }
                    lemma_not_in_map(self.entries@, k);
                }
                None
            },
        }
    }

    /// Append a pair whose key is not yet present.
    pub fn insert_new(&mut self, k: u128, v: V)
        requires
            old(self).wf(),
            !old(self)@.contains_key(k),
        ensures
            final(self).wf(),
            final(self).seq() == old(self).seq().push((k, v)),
            final(self)@ == old(self)@.insert(k, v),
    {
        proof {
            lemma_map_of_dom(self.entries@);
        }
        let ghost s0 = self.entries@;
        self.entries.push((k, v));
        proof {
            assert forall|a: int, b: int| 0 <= a < b < self.entries@.len() implies self.entries@[a].0
                != self.entries@[b].0 by {
                if b == self.entries@.len() - 1 {
                    assert(s0[a].0 != k);
                } else {
                    assert(s0[a].0 != s0[b].0);
                }
            }
            lemma_map_of_push(s0, k, v);
        }
    }

    /// Insert `k -> v`, replacing any pair that already carries `k`.
    pub fn set(&mut self, k: u128, v: V)
        requires
            old(self).wf(),
        ensures
            final(self).wf(),
            final(self)@ == old(self)@.insert(k, v),
    {
        match self.index_of(k) {
            Some(j) => {
                self.update_at(j, v);
            },
            None => {
                proof {
                    assert forall|i: int| 0 <= i < self.entries@.len() implies self.entries@[i].0
                        != k by {
                        assert(self.seq()[i].0 != k);
                    }
                    lemma_not_in_map(self.entries@, k);
                }
                self.insert_new(k, v);
            },
        }
    }

    /// Replace the value at index `j`, keeping the key.
    pub fn update_at(&mut self, j: usize, v: V)
        requires
            old(self).wf(),
            j < old(self).seq().len(),
        ensures
            final(self).wf(),
            final(self).seq() == old(self).seq().update(
                j as int,
                (old(self).seq()[j as int].0, v),
            ),
            final(self)@ == old(self)@.insert(old(self).seq()[j as int].0, v),
    {
        let ghost s0 = self.entries@;
        let k = self.entries[j].0;
        self.entries.set(j, (k, v));
        proof {
            assert forall|a: int, b: int| 0 <= a < b < self.entries@.len() implies self.entries@[a].0
                != self.entries@[b].0 by {
                assert(s0[a].0 != s0[b].0);
            }
            lemma_map_of_update(s0, j as int, v);
        }
    }

    /// Remove and return the pair at index `j`; its key leaves the map.
    pub fn remove_at(&mut self, j: usize) -> (e: (u128, V))
        requires
            old(self).wf(),
            j < old(self).seq().len(),
        ensures
            e == old(self).seq()[j as int],
            final(self).wf(),
            final(self).seq() == old(self).seq().remove(j as int),
            final(self)@ == old(self)@.remove(old(self).seq()[j as int].0),
    {
        let ghost s0 = self.entries@;
        let e = self.entries.remove(j);
        proof {
            lemma_distinct_remove(s0, j as int);
            lemma_map_of_remove(s0, j as int);
        }
        e
    }

    /// Remove the pair carrying `k`, if any.
    pub fn remove_key(&mut self, k: u128)
        requires
            old(self).wf(),
        ensures
            final(self).wf(),
            final(self)@ == old(self)@.remove(k),
    {
        match self.index_of(k) {
            Some(j) => {
                let _ = self.remove_at(j);
            },
            None => {
                proof {
                    assert forall|i: int| 0 <= i < self.entries@.len() implies self.entries@[i].0
                        != k by {
                        assert(self.seq()[i].0 != k);
                    }
                    lemma_not_in_map(self.entries@, k);
                    assert(old(self)@.remove(k) =~= old(self)@);
                }
            },
        }
    }
}

} // verus!
