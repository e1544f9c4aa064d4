//! A small map keyed by strings, kept as a list of entries with distinct keys.
use vstd::prelude::*;

verus! {

/// A map from strings to values.
pub struct StringMap<V> {
    entries: Vec<(String, V)>,
}

/// The map that a list of entries with distinct keys stands for.
pub open spec fn entries_map<V>(e: Seq<(String, V)>) -> Map<Seq<char>, V>
    decreases e.len(),
{
    if e.len() == 0 {
        Map::empty()
    } else {
        entries_map(e.drop_last()).insert(e.last().0@, e.last().1)
    }
}

/// No two entries share a key.
pub open spec fn distinct_keys<V>(e: Seq<(String, V)>) -> bool {
    forall|i: int, j: int| 0 <= i < e.len() && 0 <= j < e.len() && i != j ==> e[i].0@ != e[j].0@
}

/// A key is in the map exactly when some entry has it, and then the map
/// gives that entry's value.
proof fn lemma_entries_map<V>(e: Seq<(String, V)>)
    requires
        distinct_keys(e),
    ensures
        forall|k: Seq<char>|
            #![trigger entries_map(e).contains_key(k)]
            entries_map(e).contains_key(k) <==> exists|i: int| 0 <= i < e.len() && e[i].0@ == k,
        forall|i: int| 0 <= i < e.len() ==> #[trigger] entries_map(e)[e[i].0@] == e[i].1,
    decreases e.len(),
{
    if e.len() > 0 {
        let d = e.drop_last();
        assert(distinct_keys(d));
        lemma_entries_map(d);
        assert forall|k: Seq<char>| #![trigger entries_map(e).contains_key(k)]
            entries_map(e).contains_key(k) <==> exists|i: int| 0 <= i < e.len() && e[i].0@ == k by {
            if entries_map(e).contains_key(k) {
                if k == e.last().0@ {
                    assert(e[e.len() - 1].0@ == k);
                } else {
                    assert(entries_map(d).contains_key(k));
                    let i = choose|i: int| 0 <= i < d.len() && d[i].0@ == k;
                    assert(d[i] == e[i]);
                    assert(e[i].0@ == k);
                }
            }
            if exists|i: int| 0 <= i < e.len() && e[i].0@ == k {
                let i = choose|i: int| 0 <= i < e.len() && e[i].0@ == k;
                if i < e.len() - 1 {
                    assert(d[i] == e[i]);
                    assert(d[i].0@ == k);
                    assert(entries_map(d).contains_key(k));
                }
            }
        }
        assert forall|i: int| 0 <= i < e.len() implies #[trigger] entries_map(e)[e[i].0@] == e[i].1 by {
            if i < e.len() - 1 {
                assert(d[i] == e[i]);
                assert(entries_map(d)[d[i].0@] == d[i].1);
            }
        }
    }
}

/// Taking out one entry takes its key out of the map.
proof fn lemma_entries_map_remove<V>(e: Seq<(String, V)>, i: int)
    requires
        distinct_keys(e),
        0 <= i < e.len(),
    ensures
        entries_map(e.remove(i)) == entries_map(e).remove(e[i].0@),
        distinct_keys(e.remove(i)),
    decreases e.len(),
{
    let r = e.remove(i);
    assert forall|a: int, b: int| 0 <= a < r.len() && 0 <= b < r.len() && a != b implies r[a].0@
        != r[b].0@ by {
        let a2 = if a < i {
            a
        } else {
            a + 1
        };
        let b2 = if b < i {
            b
        } else {
            b + 1
        };
        assert(r[a] == e[a2]);
        assert(r[b] == e[b2]);
    }
    let d = e.drop_last();
    assert(distinct_keys(d));
    lemma_entries_map(d);
    if i == e.len() - 1 {
        assert(r =~= d);
        assert(!entries_map(d).contains_key(e.last().0@)) by {
            if entries_map(d).contains_key(e.last().0@) {
                let j = choose|j: int| 0 <= j < d.len() && d[j].0@ == e.last().0@;
                assert(e[j].0@ == e[e.len() - 1].0@);
            }
        }
        assert(entries_map(e).remove(e[i].0@) =~= entries_map(d));
    } else {
        lemma_entries_map_remove(d, i);
        assert(r.drop_last() =~= d.remove(i));
        assert(r.last() == e.last());
        assert(e[i].0@ != e.last().0@);
        assert(entries_map(r) =~= entries_map(e).remove(e[i].0@));
    }
}

impl<V> View for StringMap<V> {
    type V = Map<Seq<char>, V>;

    closed spec fn view(&self) -> Map<Seq<char>, V> {
        entries_map(self.entries@)
    }
}

impl<V> StringMap<V> {
    /// The entries have distinct keys.
    pub closed spec fn wf(&self) -> bool {
        distinct_keys(self.entries@)
    }

    /// The empty map.
    pub fn new() -> (m: Self)
        ensures
            m.wf(),
            m@ == Map::<Seq<char>, V>::empty(),
    {
        StringMap { entries: Vec::new() }
    }

    fn index_of(&self, k: &String) -> (r: Option<usize>)
        requires
            self.wf(),
        ensures
            match r {
                Some(i) => i < self.entries@.len() && self.entries@[i as int].0@ == k@,
                None => forall|i: int| 0 <= i < self.entries@.len() ==> self.entries@[i].0@ != k@,
            },
    {
        let mut i: usize = 0;
        while i < self.entries.len()
            invariant
                i <= self.entries@.len(),
                forall|j: int| 0 <= j < i ==> self.entries@[j].0@ != k@,
            decreases self.entries.len() - i,
        {
            if self.entries[i].0 == *k {
                return Some(i);
            }
            i += 1;
        }
        None
    }

    /// Whether the map has the key `k`.
    pub fn contains(&self, k: &String) -> (b: bool)
        requires
            self.wf(),
        ensures
            b == self@.contains_key(k@),
    {
        proof {
            lemma_entries_map(self.entries@);
        }
        match self.index_of(k) {
            Some(_) => true,
            None => false,
        }
    }

    /// The value of the key `k`, if it has one.
    pub fn get(&self, k: &String) -> (r: Option<&V>)
        requires
            self.wf(),
        ensures
            match r {
                Some(v) => self@.contains_key(k@) && self@[k@] == *v,
                None => !self@.contains_key(k@),
            },
    {
        proof {
            lemma_entries_map(self.entries@);
        }
        match self.index_of(k) {
            Some(i) => Some(&self.entries[i].1),
            None => None,
        }
    }

    /// Takes the key `k` out of the map, giving back its value.
    pub fn remove(&mut self, k: &String) -> (r: Option<V>)
        requires
            old(self).wf(),
        ensures
            final(self).wf(),
            final(self)@ == old(self)@.remove(k@),
            match r {
                Some(v) => old(self)@.contains_key(k@) && old(self)@[k@] == v,
                None => !old(self)@.contains_key(k@),
            },
    {
        proof {
            lemma_entries_map(self.entries@);
        }
        match self.index_of(k) {
            Some(i) => {
                proof {
                    lemma_entries_map_remove(self.entries@, i as int);
                }
                let (_, v) = self.entries.remove(i);
                Some(v)
            },
            None => {
                assert(self@.remove(k@) =~= self@);
                None
            },
        }
    }

    /// Gives the key `k` the value `v`, replacing any value it had.
    pub fn insert(&mut self, k: String, v: V)
        requires
            old(self).wf(),
        ensures
            final(self).wf(),
            final(self)@ == old(self)@.insert(k@, v),
    {
        let ghost kv = k@;
        let _ = self.remove(&k);
        proof {
            lemma_entries_map(self.entries@);
        }
        let ghost before = self.entries@;
        self.entries.push((k, v));
        proof {
            assert(self.entries@.drop_last() =~= before);
            assert forall|i: int, j: int|
                0 <= i < self.entries@.len() && 0 <= j < self.entries@.len() && i != j implies self.entries@[i].0@
                != self.entries@[j].0@ by {
                assert(!entries_map(before).contains_key(kv));
                if i < before.len() && j < before.len() {
                    assert(self.entries@[i] == before[i]);
                    assert(self.entries@[j] == before[j]);
                } else if i < before.len() {
                    assert(self.entries@[i] == before[i]);
                    if before[i].0@ == kv {
                        assert(entries_map(before).contains_key(kv));
                    }
                } else {
                    assert(self.entries@[j] == before[j]);
                    if before[j].0@ == kv {
                        assert(entries_map(before).contains_key(kv));
                    }
                }
            }
            assert(entries_map(self.entries@) =~= old(self)@.insert(kv, v));
        }
    }
}

} // verus!
