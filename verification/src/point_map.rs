//! A finite map keyed by points, with a way through its keys that is the same every time.

use vstd::prelude::*;
use crate::point::Point;

verus! {

/// A finite map keyed by points.
///
/// The entries are kept in the order in which their keys first came in; `keys` hands the keys
/// out in that order, so that a walk over the map is the same walk every time.
pub struct PointMap<V> {
    entries: Vec<(Point, V)>,
}

/// No key stands at two places of the sequence.
pub open spec fn distinct_keys<V>(entries: Seq<(Point, V)>) -> bool {
    forall|i: int, j: int| 0 <= i < j < entries.len() ==> entries[i].0 != entries[j].0
}

/// Some entry of the sequence has the key.
pub open spec fn has_key<V>(entries: Seq<(Point, V)>, key: Point) -> bool {
    exists|i: int| 0 <= i < entries.len() && #[trigger] entries[i].0 == key
}

/// A place in the sequence at which the key stands.
pub open spec fn place_of<V>(entries: Seq<(Point, V)>, key: Point) -> int {
    choose|i: int| 0 <= i < entries.len() && #[trigger] entries[i].0 == key
}

/// The map that a sequence of entries stands for.
pub open spec fn as_map<V>(entries: Seq<(Point, V)>) -> Map<Point, V> {
    Map::new(|key: Point| has_key(entries, key), |key: Point| entries[place_of(entries, key)].1)
}

/// The keys of a sequence of entries, in order.
pub open spec fn key_seq<V>(entries: Seq<(Point, V)>) -> Seq<Point> {
    Seq::new(entries.len(), |i: int| entries[i].0)
}

pub proof fn lemma_entry_in_map<V>(entries: Seq<(Point, V)>, i: int)
    requires
        distinct_keys(entries),
        0 <= i < entries.len(),
    ensures
        as_map(entries).contains_key(entries[i].0),
        as_map(entries)[entries[i].0] == entries[i].1,
        place_of(entries, entries[i].0) == i,
{
    let key = entries[i].0;
    assert(has_key(entries, key));
    let j = place_of(entries, key);
    assert(0 <= j < entries.len() && entries[j].0 == key);
    if j < i {
        assert(entries[j].0 != entries[i].0);
    } else if i < j {
        assert(entries[i].0 != entries[j].0);
    }
}

pub proof fn lemma_push_entry<V>(entries: Seq<(Point, V)>, key: Point, value: V)
    requires
        distinct_keys(entries),
        !has_key(entries, key),
    ensures
        distinct_keys(entries.push((key, value))),
        as_map(entries.push((key, value))) == as_map(entries).insert(key, value),
        key_seq(entries.push((key, value))) == key_seq(entries).push(key),
{
    let after = entries.push((key, value));
    assert(distinct_keys(after)) by {
        assert forall|i: int, j: int| 0 <= i < j < after.len() implies after[i].0 != after[j].0 by {
            if j == entries.len() {
                assert(entries[i].0 != key);
            } else {
                assert(entries[i].0 != entries[j].0);
            }
        }
    }
    assert forall|k: Point| has_key(after, k) <==> (k == key || has_key(entries, k)) by {
        if has_key(after, k) {
            let i = place_of(after, k);
            if i < entries.len() {
                assert(entries[i].0 == k);
            }
        }
        if k == key {
            assert(after[entries.len() as int].0 == key);
        }
        if has_key(entries, k) {
            let i = place_of(entries, k);
            assert(after[i].0 == k);
        }
    }
    assert forall|k: Point| has_key(after, k) implies #[trigger] as_map(after)[k] == as_map(
        entries,
    ).insert(key, value)[k] by {
        let i = place_of(after, k);
        lemma_entry_in_map(after, i);
        if i < entries.len() {
            lemma_entry_in_map(entries, i);
        }
    }
    assert(as_map(after) =~= as_map(entries).insert(key, value));
    assert(key_seq(after) =~= key_seq(entries).push(key));
}

pub proof fn lemma_update_entry<V>(entries: Seq<(Point, V)>, i: int, value: V)
    requires
        distinct_keys(entries),
        0 <= i < entries.len(),
    ensures
        distinct_keys(entries.update(i, (entries[i].0, value))),
        as_map(entries.update(i, (entries[i].0, value))) == as_map(entries).insert(
            entries[i].0,
            value,
        ),
        key_seq(entries.update(i, (entries[i].0, value))) == key_seq(entries),
{
    let key = entries[i].0;
    let after = entries.update(i, (key, value));
    assert(distinct_keys(after)) by {
        assert forall|a: int, b: int| 0 <= a < b < after.len() implies after[a].0 != after[b].0 by {
            assert(entries[a].0 != entries[b].0);
        }
    }
    assert forall|k: Point| has_key(after, k) <==> has_key(entries, k) by {
        if has_key(after, k) {
            let j = place_of(after, k);
            assert(entries[j].0 == k);
        }
        if has_key(entries, k) {
            let j = place_of(entries, k);
            assert(after[j].0 == k);
        }
    }
    assert(has_key(entries, key)) by {
        assert(entries[i].0 == key);
    }
    assert forall|k: Point| has_key(after, k) implies #[trigger] as_map(after)[k] == as_map(
        entries,
    ).insert(key, value)[k] by {
        let j = place_of(after, k);
        lemma_entry_in_map(after, j);
        if j != i {
            lemma_entry_in_map(entries, j);
        }
    }
    assert(as_map(after) =~= as_map(entries).insert(key, value));
    assert(key_seq(after) =~= key_seq(entries));
}

pub proof fn lemma_remove_entry<V>(entries: Seq<(Point, V)>, i: int)
    requires
        distinct_keys(entries),
        0 <= i < entries.len(),
    ensures
        distinct_keys(entries.remove(i)),
        !has_key(entries.remove(i), entries[i].0),
        as_map(entries.remove(i)) == as_map(entries).remove(entries[i].0),
        key_seq(entries.remove(i)) == key_seq(entries).remove(i),
{
    let key = entries[i].0;
    let after = entries.remove(i);
    assert forall|a: int| 0 <= a < after.len() implies after[a] == entries[if a < i {
        a
    } else {
        a + 1
    }] by {}
    assert(distinct_keys(after)) by {
        assert forall|a: int, b: int| 0 <= a < b < after.len() implies after[a].0 != after[b].0 by {
            let a0 = if a < i { a } else { a + 1 };
            let b0 = if b < i { b } else { b + 1 };
            assert(entries[a0].0 != entries[b0].0);
        }
    }
    assert forall|k: Point| has_key(after, k) <==> (k != key && has_key(entries, k)) by {
        if has_key(after, k) {
            let a = place_of(after, k);
            let a0 = if a < i { a } else { a + 1 };
            assert(entries[a0].0 == k);
            if a0 < i {
                assert(entries[a0].0 != entries[i].0);
            } else {
                assert(entries[i].0 != entries[a0].0);
            }
        }
        if k != key && has_key(entries, k) {
            let j = place_of(entries, k);
            let a = if j < i { j } else { j - 1 };
            assert(after[a].0 == k);
        }
    }
    assert forall|k: Point| has_key(after, k) implies #[trigger] as_map(after)[k] == as_map(
        entries,
    ).remove(key)[k] by {
        let a = place_of(after, k);
        let a0 = if a < i { a } else { a + 1 };
        lemma_entry_in_map(after, a);
        lemma_entry_in_map(entries, a0);
    }
    assert(as_map(after) =~= as_map(entries).remove(key));
    assert(key_seq(after) =~= key_seq(entries).remove(i));
}

/// The keys of distinct entries are as many as the entries, and they are the map's domain.
pub proof fn lemma_keys_of_map<V>(entries: Seq<(Point, V)>)
    requires
        distinct_keys(entries),
    ensures
        key_seq(entries).no_duplicates(),
        key_seq(entries).to_set() == as_map(entries).dom(),
        as_map(entries).dom().finite(),
        as_map(entries).len() == entries.len(),
{
    let keys = key_seq(entries);
    assert(keys.no_duplicates()) by {
        assert forall|i: int, j: int| 0 <= i < keys.len() && 0 <= j < keys.len() && i != j implies
            keys[i]
            != keys[j] by {
            if i < j {
                assert(entries[i].0 != entries[j].0);
            } else {
                assert(entries[j].0 != entries[i].0);
            }
        }
    }
    assert forall|k: Point| keys.to_set().contains(k) <==> as_map(entries).dom().contains(k) by {
        if keys.to_set().contains(k) {
            let i = choose|i: int| 0 <= i < keys.len() && keys[i] == k;
            assert(entries[i].0 == k);
        }
        if has_key(entries, k) {
            let i = place_of(entries, k);
            assert(keys[i] == k);
        }
    }
    assert(keys.to_set() =~= as_map(entries).dom());
    keys.unique_seq_to_set();
    vstd::seq_lib::seq_to_set_is_finite(keys);
}

impl<V> View for PointMap<V> {
    type V = Map<Point, V>;

    closed spec fn view(&self) -> Map<Point, V> {
        as_map(self.entries@)
    }
}

impl<V> PointMap<V> {
    /// No key has two entries.
    pub closed spec fn wf(self) -> bool {
        distinct_keys(self.entries@)
    }

    /// What `wf` gives of the key order and of the map's size.
    pub proof fn lemma_key_order(self)
        requires
            self.wf(),
        ensures
            self.key_order().no_duplicates(),
            self.key_order().to_set() == self@.dom(),
            forall|k: Point| self.key_order().contains(k) <==> self@.contains_key(k),
            self@.dom().finite(),
            self@.len() == self.key_order().len(),
    {
        lemma_keys_of_map(self.entries@);
        assert forall|k: Point| self.key_order().contains(k) <==> self@.contains_key(k) by {
            assert(self.key_order().to_set().contains(k) <==> self@.dom().contains(k));
        }
    }

    /// The keys in the order in which `keys` hands them out.
    pub closed spec fn key_order(self) -> Seq<Point> {
        key_seq(self.entries@)
    }

    pub fn new() -> (map: Self)
        ensures
            map.wf(),
            map@ == Map::<Point, V>::empty(),
            map.key_order() == Seq::<Point>::empty(),
    {
        let map = PointMap { entries: Vec::new() };
        assert(map@ =~= Map::<Point, V>::empty());
        assert(map.key_order() =~= Seq::<Point>::empty());
        map
    }

    pub fn len(&self) -> (n: usize)
        requires
            self.wf(),
        ensures
            n == self@.len(),
            n == self.key_order().len(),
            self@.dom().finite(),
    {
        proof {
            lemma_keys_of_map(self.entries@);
        }
        self.entries.len()
    }

    pub fn is_empty(&self) -> (empty: bool)
        requires
            self.wf(),
        ensures
            empty == (self@ == Map::<Point, V>::empty()),
            empty == (self@.len() == 0),
    {
        proof {
            lemma_keys_of_map(self.entries@);
            if self.entries@.len() == 0 {
                assert(self@ =~= Map::<Point, V>::empty());
            } else {
                lemma_entry_in_map(self.entries@, 0);
            }
        }
        self.entries.len() == 0
    }

    /// The place of a key among the entries.
    fn position(&self, key: &Point) -> (place: Option<usize>)
        ensures
            match place {
                Some(i) => i < self.entries@.len() && self.entries@[i as int].0 == *key,
                None => !has_key(self.entries@, *key),
            },
    {
        let mut i: usize = 0;
        while i < self.entries.len()
            invariant
                i <= self.entries@.len(),
                forall|j: int| 0 <= j < i ==> self.entries@[j].0 != *key,
            decreases self.entries@.len() - i,
        {
            if self.entries[i].0 == *key {
                return Some(i);
            }
            i += 1;
        }
        None
    }

    pub fn contains_key(&self, key: &Point) -> (found: bool)
        requires
            self.wf(),
        ensures
            found == self@.contains_key(*key),
    {
        let place = self.position(key);
        proof {
            if let Some(i) = place {
                lemma_entry_in_map(self.entries@, i as int);
            }
        }
        place.is_some()
    }

    pub fn get(&self, key: &Point) -> (value: Option<&V>)
        requires
            self.wf(),
        ensures
            match value {
                Some(v) => self@.contains_key(*key) && *v == self@[*key],
                None => !self@.contains_key(*key),
            },
    {
        match self.position(key) {
            Some(i) => {
                proof {
                            lemma_entry_in_map(self.entries@, i as int);
                }
                Some(&self.entries[i].1)
            },
            None => None,
        }
    }

    /// Lends out the value under a key for a change in place.
    pub fn get_mut(&mut self, key: &Point) -> (value: Option<&mut V>)
        requires
            old(self).wf(),
        ensures
            final(self).wf(),
            final(self).key_order() == old(self).key_order(),
            match value {
                Some(v) => {
                    &&& old(self)@.contains_key(*key)
                    &&& *v == old(self)@[*key]
                    &&& final(self)@ == old(self)@.insert(*key, *final(v))
                },
                None => !old(self)@.contains_key(*key) && final(self)@ == old(self)@,
            },
    {
        match self.position(key) {
            Some(i) => {
                proof {
                    lemma_entry_in_map(self.entries@, i as int);
                    assert forall|value: V| #[trigger]
                        as_map(self.entries@.update(i as int, (*key, value))) == as_map(
                            self.entries@,
                        ).insert(*key, value) && distinct_keys(
                            self.entries@.update(i as int, (*key, value)),
                        ) && key_seq(self.entries@.update(i as int, (*key, value))) == key_seq(
                            self.entries@,
                        ) by {
                        lemma_update_entry(self.entries@, i as int, value);
                    }
                }
                Some(&mut self.entries[i].1)
            },
            None => None,
        }
    }

    /// Puts a value under a key; a value that stood there before is dropped. A new key goes to
    /// the end of the key order, an old one keeps its place.
    pub fn insert(&mut self, key: Point, value: V)
        requires
            old(self).wf(),
        ensures
            final(self).wf(),
            final(self)@ == old(self)@.insert(key, value),
            old(self)@.contains_key(key) ==> final(self).key_order() == old(self).key_order(),
            !old(self)@.contains_key(key) ==> final(self).key_order() == old(self).key_order().push(
                key,
            ),
    {
        match self.position(&key) {
            Some(i) => {
                proof {
                    lemma_update_entry(self.entries@, i as int, value);
                    lemma_entry_in_map(self.entries@, i as int);
                }
                self.entries[i] = (key, value);
            },
            None => {
                proof {
                    lemma_push_entry(self.entries@, key, value);
                }
                self.entries.push((key, value));
            },
        }
    }

    /// Takes a key and its value out of the map.
    pub fn remove(&mut self, key: &Point) -> (value: Option<V>)
        requires
            old(self).wf(),
        ensures
            final(self).wf(),
            final(self)@ == old(self)@.remove(*key),
            match value {
                Some(v) => old(self)@.contains_key(*key) && v == old(self)@[*key],
                None => !old(self)@.contains_key(*key),
            },
            value is None ==> final(self).key_order() == old(self).key_order(),
            value is Some ==> final(self).key_order() == old(self).key_order().remove(
                old(self).key_order().index_of(*key),
            ),
    {
        match self.position(key) {
            Some(i) => {
                proof {
                    lemma_remove_entry(self.entries@, i as int);
                    lemma_entry_in_map(self.entries@, i as int);
                    lemma_keys_of_map(self.entries@);
                    let keys = key_seq(self.entries@);
                    assert(keys[i as int] == *key);
                    keys.index_of_first_ensures(*key);
                }
                let entry = self.entries.remove(i);
                Some(entry.1)
            },
            None => {
                assert(old(self)@.remove(*key) =~= old(self)@);
                None
            },
        }
    }

    /// The keys of the map, each once, in key order.
    pub fn keys(&self) -> (keys: Vec<Point>)
        requires
            self.wf(),
        ensures
            keys@ == self.key_order(),
            keys@.no_duplicates(),
            forall|k: Point| keys@.contains(k) <==> self@.contains_key(k),
    {
        let mut keys: Vec<Point> = Vec::new();
        let mut i: usize = 0;
        while i < self.entries.len()
            invariant
                i <= self.entries@.len(),
                keys@ == key_seq(self.entries@).subrange(0, i as int),
            decreases self.entries@.len() - i,
        {
            keys.push(self.entries[i].0);
            assert(keys@ =~= key_seq(self.entries@).subrange(0, i + 1));
            i += 1;
        }
        proof {
            lemma_keys_of_map(self.entries@);
            assert(keys@ =~= key_seq(self.entries@));
            assert forall|k: Point| keys@.contains(k) <==> self@.contains_key(k) by {
                assert(keys@.to_set().contains(k) <==> self@.dom().contains(k));
            }
        }
        keys
    }

    /// Gives the map up and hands out its entries, each key once, in key order.
    pub fn into_entries(self) -> (entries: Vec<(Point, V)>)
        requires
            self.wf(),
        ensures
            distinct_keys(entries@),
            as_map(entries@) == self@,
            key_seq(entries@) == self.key_order(),
    {
        self.entries
    }
}

} // verus!
