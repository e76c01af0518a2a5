//! The in-memory key/value byte store.
//!
//! Keys are byte strings; the store's mathematical view is the map from key
//! bytes to value bytes. `get`, `set` and `erase` are specified exactly
//! against that map.

use crate::text::byte_vecs_equal;
use vstd::prelude::*;

verus! {

/// The map a sequence of key/value entries denotes; later entries win.
pub open spec fn entries_as_map(s: Seq<(Vec<u8>, Vec<u8>)>) -> Map<Seq<u8>, Seq<u8>>
    decreases s.len(),
{
    if s.len() == 0 {
        Map::empty()
    } else {
        entries_as_map(s.drop_last()).insert(s.last().0@, s.last().1@)
    }
}

/// Whether all entry keys are distinct.
pub open spec fn unique_keys(s: Seq<(Vec<u8>, Vec<u8>)>) -> bool {
    forall|i: int, j: int| 0 <= i < j < s.len() ==> (#[trigger] s[i].0@) != (#[trigger] s[j].0@)
}

/// A key is in the map exactly when some entry holds it.
proof fn lemma_as_map_contains(s: Seq<(Vec<u8>, Vec<u8>)>, k: Seq<u8>)
    ensures
        entries_as_map(s).contains_key(k) <==> exists|i: int|
            0 <= i < s.len() && (#[trigger] s[i].0@) == k,
    decreases s.len(),
{
    if s.len() > 0 {
        lemma_as_map_contains(s.drop_last(), k);
        let d = s.drop_last();
        assert(forall|i: int| 0 <= i < d.len() ==> (#[trigger] d[i].0@) == s[i].0@);
        if entries_as_map(s).contains_key(k) {
            if k == s.last().0@ {
                assert(s[s.len() - 1].0@ == k);
            } else {
                let i = choose|i: int| 0 <= i < d.len() && (#[trigger] d[i].0@) == k;
                assert(s[i].0@ == k);
            }
        }
        if exists|i: int| 0 <= i < s.len() && (#[trigger] s[i].0@) == k {
            let i = choose|i: int| 0 <= i < s.len() && (#[trigger] s[i].0@) == k;
            if i == s.len() - 1 {
            } else {
                assert(d[i].0@ == k);
            }
        }
    }
}

/// With distinct keys, the entry holding a key gives the map's value at it.
proof fn lemma_as_map_value(s: Seq<(Vec<u8>, Vec<u8>)>, i: int)
    requires
        unique_keys(s),
        0 <= i < s.len(),
    ensures
        entries_as_map(s).contains_key(s[i].0@),
        entries_as_map(s)[s[i].0@] == s[i].1@,
    decreases s.len(),
{
    let d = s.drop_last();
    if i == s.len() - 1 {
    } else {
        assert(unique_keys(d)) by {
            assert(forall|p: int| 0 <= p < d.len() ==> (#[trigger] d[p].0@) == s[p].0@);
        }
        lemma_as_map_value(d, i);
        assert(s[i].0@ != s.last().0@);
        assert(d[i] == s[i]);
    }
}

/// Updating the entry that holds a key updates the map at that key.
proof fn lemma_as_map_update(s: Seq<(Vec<u8>, Vec<u8>)>, i: int, kv: (Vec<u8>, Vec<u8>))
    requires
        unique_keys(s),
        0 <= i < s.len(),
        s[i].0@ == kv.0@,
    ensures
        entries_as_map(s.update(i, kv)) =~= entries_as_map(s).insert(kv.0@, kv.1@),
    decreases s.len(),
{
    let u = s.update(i, kv);
    let d = s.drop_last();
    if i == s.len() - 1 {
        assert(u.drop_last() =~= d);
        assert(u.last() == kv);
        assert(entries_as_map(u) == entries_as_map(d).insert(kv.0@, kv.1@));
        assert(entries_as_map(d).insert(kv.0@, kv.1@) =~= entries_as_map(d).insert(
            s.last().0@,
            s.last().1@,
        ).insert(kv.0@, kv.1@));
    } else {
        assert(unique_keys(d)) by {
            assert(forall|p: int| 0 <= p < d.len() ==> (#[trigger] d[p].0@) == s[p].0@);
        }
        assert(d[i] == s[i]);
        lemma_as_map_update(d, i, kv);
        assert(u.drop_last() =~= d.update(i, kv));
        assert(u.last() == s.last());
        assert(entries_as_map(u) == entries_as_map(d.update(i, kv)).insert(
            s.last().0@,
            s.last().1@,
        ));
        // the two inserted keys differ, so the inserts commute
        assert(kv.0@ != s.last().0@);
        assert(entries_as_map(d).insert(kv.0@, kv.1@).insert(s.last().0@, s.last().1@)
            =~= entries_as_map(d).insert(s.last().0@, s.last().1@).insert(kv.0@, kv.1@));
    }
}

/// Removing the entry that holds a key removes the key from the map.
proof fn lemma_as_map_remove(s: Seq<(Vec<u8>, Vec<u8>)>, i: int)
    requires
        unique_keys(s),
        0 <= i < s.len(),
    ensures
        entries_as_map(s.remove(i)) =~= entries_as_map(s).remove(s[i].0@),
    decreases s.len(),
{
    let d = s.drop_last();
    let k = s[i].0@;
    assert(unique_keys(d)) by {
        assert(forall|p: int| 0 <= p < d.len() ==> (#[trigger] d[p].0@) == s[p].0@);
    }
    if i == s.len() - 1 {
        assert(s.remove(i) =~= d);
        lemma_as_map_contains(d, k);
        assert(forall|p: int| 0 <= p < d.len() ==> (#[trigger] d[p].0@) != k);
        assert(!entries_as_map(d).contains_key(k));
        assert(entries_as_map(d) =~= entries_as_map(d).insert(k, s.last().1@).remove(k));
    } else {
        assert(d[i] == s[i]);
        lemma_as_map_remove(d, i);
        assert(s.remove(i).drop_last() =~= d.remove(i));
        assert(s.remove(i).last() == s.last());
        assert(entries_as_map(s.remove(i)) == entries_as_map(d.remove(i)).insert(
            s.last().0@,
            s.last().1@,
        ));
        assert(k != s.last().0@);
        assert(entries_as_map(d).remove(k).insert(s.last().0@, s.last().1@) =~= entries_as_map(
            d,
        ).insert(s.last().0@, s.last().1@).remove(k));
    }
}

/// A process-lifetime in-memory byte store.
pub struct MemoryStore {
    entries: Vec<(Vec<u8>, Vec<u8>)>,
}

impl View for MemoryStore {
    type V = Map<Seq<u8>, Seq<u8>>;

    closed spec fn view(&self) -> Map<Seq<u8>, Seq<u8>> {
        entries_as_map(self.entries@)
    }
}

impl MemoryStore {
    /// The store's internal entry list holds each key at most once.
    pub closed spec fn wf(&self) -> bool {
        unique_keys(self.entries@)
    }

    /// An empty store.
    pub fn new() -> (r: MemoryStore)
        ensures
            r.wf(),
            r@ == Map::<Seq<u8>, Seq<u8>>::empty(),
    {
        MemoryStore { entries: Vec::new() }
    }

    /// The index of the entry holding a key, if any.
    fn find_index(&self, key: &Vec<u8>) -> (r: Option<usize>)
        ensures
            match r {
                Some(i) => i < self.entries@.len() && self.entries@[i as int].0@ == key@,
                None => forall|i: int|
                    0 <= i < self.entries@.len() ==> (#[trigger] self.entries@[i].0@) != key@,
            },
    {
        let mut i: usize = 0;
        while i < self.entries.len()
            invariant
                0 <= i <= self.entries@.len(),
                forall|p: int| 0 <= p < i ==> (#[trigger] self.entries@[p].0@) != key@,
            decreases self.entries@.len() - i,
        {
            if byte_vecs_equal(&self.entries[i].0, key) {
                return Some(i);
            }
            i += 1;
        }
        None
    }

    /// The value stored at a key, if any.
    pub fn get(&self, key: &Vec<u8>) -> (r: Option<Vec<u8>>)
        requires
            self.wf(),
        ensures
            match r {
                Some(v) => self@.contains_key(key@) && v@ == self@[key@],
                None => !self@.contains_key(key@),
            },
    {
        proof {
            lemma_as_map_contains(self.entries@, key@);
        }
        match self.find_index(key) {
            Some(i) => {
                proof {
                    lemma_as_map_value(self.entries@, i as int);
                }
                Some(copy_bytes(&self.entries[i].1))
            },
            None => None,
        }
    }

    /// Whether a key is present.
    pub fn contains_key(&self, key: &Vec<u8>) -> (r: bool)
        requires
            self.wf(),
        ensures
            r == self@.contains_key(key@),
    {
        proof {
            lemma_as_map_contains(self.entries@, key@);
        }
        self.find_index(key).is_some()
    }

    /// Store a value at a key, replacing any previous value.
    pub fn set(&mut self, key: Vec<u8>, value: Vec<u8>)
        requires
            old(self).wf(),
        ensures
            final(self).wf(),
            final(self)@ == old(self)@.insert(key@, value@),
    {
        let ghost pre = self.entries@;
        match self.find_index(&key) {
            Some(i) => {
                proof {
                    lemma_as_map_update(pre, i as int, (key, value));
                }
                self.entries[i] = (key, value);
                proof {
                    assert(unique_keys(self.entries@)) by {
                        assert(forall|p: int|
                            0 <= p < self.entries@.len() ==> (#[trigger] self.entries@[p].0@)
                                == pre[p].0@);
                    }
                }
            },
            None => {
                self.entries.push((key, value));
                proof {
                    assert(self.entries@.drop_last() =~= pre);
                    assert(unique_keys(self.entries@)) by {
                        assert(forall|p: int|
                            0 <= p < pre.len() ==> (#[trigger] self.entries@[p].0@) == pre[p].0@);
                    }
                    assert(entries_as_map(self.entries@) == entries_as_map(pre).insert(
                        key@,
                        value@,
                    ));
                }
            },
        }
    }

    /// Remove a key; removing an absent key changes nothing.
    pub fn erase(&mut self, key: &Vec<u8>)
        requires
            old(self).wf(),
        ensures
            final(self).wf(),
            final(self)@ == old(self)@.remove(key@),
    {
        let ghost pre = self.entries@;
        match self.find_index(key) {
            Some(i) => {
                proof {
                    lemma_as_map_remove(pre, i as int);
                }
                self.entries.remove(i);
                proof {
                    assert(unique_keys(self.entries@)) by {
                        assert(forall|p: int, q: int|
                            0 <= p < q < self.entries@.len() ==> (#[trigger] self.entries@[p].0@)
                                != (#[trigger] self.entries@[q].0@)) by {
                            assert(forall|p: int|
                                0 <= p < self.entries@.len() ==> #[trigger] self.entries@[p] == (
                                if p < i {
                                    pre[p]
                                } else {
                                    pre[p + 1]
                                }));
                        }
                    }
                }
            },
            None => {
                proof {
                    lemma_as_map_contains(pre, key@);
                    assert(!entries_as_map(pre).contains_key(key@));
                    assert(entries_as_map(pre) =~= entries_as_map(pre).remove(key@));
                }
            },
        }
    }
}

/// An owned copy of a byte vector.
pub fn copy_bytes(v: &Vec<u8>) -> (r: Vec<u8>)
    ensures
        r@ == v@,
{
    let mut r: Vec<u8> = Vec::new();
    let mut i: usize = 0;
    while i < v.len()
        invariant
            0 <= i <= v@.len(),
            r@.len() == i,
            forall|p: int| 0 <= p < i ==> r@[p] == v@[p],
        decreases v@.len() - i,
    {
        r.push(v[i]);
        i += 1;
    }
    proof {
        assert(r@ =~= v@);
    }
    r
}

} // verus!
