//! A small map kept as a list of entries, for keys that carry their own
//! equality test.
use vstd::prelude::*;
use crate::text::same_text;

verus! {

/// A key of a [`Table`]: a value that can be compared with another of its
/// kind, the comparison agreeing with equality of their views.
pub trait Key: View + Sized {
    /// Decides whether two keys stand for the same thing.
    fn same(&self, other: &Self) -> (r: bool)
        ensures
            r == (self@ == other@),
    ;
}

impl Key for char {
    fn same(&self, other: &Self) -> (r: bool) {
        *self == *other
    }
}

impl Key for Vec<char> {
    fn same(&self, other: &Self) -> (r: bool) {
        same_text(self, other)
    }
}

/// A finite map from keys to values. No key occurs twice, so the table
/// holds one entry for each key that was ever inserted.
pub struct Table<K, V> {
    keys: Vec<K>,
    values: Vec<V>,
}

/// Whether `k` is the view of one of `keys`.
pub open spec fn has_key<K: View>(keys: Seq<K>, k: K::V) -> bool {
    exists|i: int| 0 <= i < keys.len() && (#[trigger] keys[i])@ == k
}

/// A place in `keys` whose view is `k`, if there is one.
pub open spec fn place_of<K: View>(keys: Seq<K>, k: K::V) -> int {
    choose|i: int| 0 <= i < keys.len() && (#[trigger] keys[i])@ == k
}

impl<K: Key, V: View> View for Table<K, V> {
    type V = Map<K::V, V::V>;

    closed spec fn view(&self) -> Map<K::V, V::V> {
        Map::new(
            |k: K::V| has_key(self.keys@, k),
            |k: K::V| self.values@[place_of(self.keys@, k)]@,
        )
    }
}

impl<K: Key, V: View> Table<K, V> {
    /// The invariant: one value for each key, and no key twice.
    pub closed spec fn wf(&self) -> bool {
        &&& self.keys.len() == self.values.len()
        &&& forall|i: int, j: int|
            0 <= i < j < self.keys.len() ==> (#[trigger] self.keys@[i])@ != (
            #[trigger] self.keys@[j])@
    }

    /// An empty table.
    pub fn new() -> (t: Self)
        ensures
            t.wf(),
            t@ == Map::<K::V, V::V>::empty(),
    {
        let t = Table { keys: Vec::new(), values: Vec::new() };
        t
    }

    /// The place of `key` among the keys, if it is there.
    fn find(&self, key: &K) -> (r: Option<usize>)
        requires
            self.wf(),
        ensures
            match r {
                Some(i) => i < self.keys.len() && self.keys@[i as int]@ == key@ && place_of(
                    self.keys@,
                    key@,
                ) == i,
                None => !has_key(self.keys@, key@),
            },
    {
        let mut i: usize = 0;
        while i < self.keys.len()
            invariant
                self.wf(),
                i <= self.keys.len(),
                forall|j: int| 0 <= j < i ==> (#[trigger] self.keys@[j])@ != key@,
            decreases self.keys.len() - i,
        {
            if self.keys[i].same(key) {
                proof {
                    let j = place_of(self.keys@, key@);
                    assert(self.keys@[i as int]@ == key@);
                    assert(self.keys@[j]@ == key@);
                }
                return Some(i);
            }
            i += 1;
        }
        None
    }

    /// The value stored under `key`, if there is one.
    pub fn get(&self, key: &K) -> (r: Option<&V>)
        requires
            self.wf(),
        ensures
            match r {
                Some(v) => self@.contains_key(key@) && self@[key@] == v@,
                None => !self@.contains_key(key@),
            },
    {
        match self.find(key) {
            Some(i) => Some(&self.values[i]),
            None => None,
        }
    }

    /// Stores `value` under `key`, in place of what was stored there before.
    pub fn insert(&mut self, key: K, value: V)
        requires
            old(self).wf(),
        ensures
            final(self).wf(),
            final(self)@ == old(self)@.insert(key@, value@),
    {
        match self.find(&key) {
            Some(i) => {
                self.values.set(i, value);
                assert(self@ =~= old(self)@.insert(key@, value@));
            },
            None => {
                self.keys.push(key);
                self.values.push(value);
                let ghost last = old(self).keys.len() as int;
                assert(self.keys@[last]@ == key@);
                assert forall|k: K::V| has_key(self.keys@, k) <==> (k == key@ || has_key(
                    old(self).keys@,
                    k,
                )) by {
                    if has_key(old(self).keys@, k) {
                        let i = place_of(old(self).keys@, k);
                        assert(self.keys@[i] == old(self).keys@[i]);
                    }
                    if has_key(self.keys@, k) {
                        let i = place_of(self.keys@, k);
                        if i < last {
                            assert(self.keys@[i] == old(self).keys@[i]);
                        }
                    }
                }
                assert forall|k: K::V| has_key(old(self).keys@, k) implies place_of(
                    self.keys@,
                    k,
                ) == place_of(old(self).keys@, k) by {
                    let i = place_of(old(self).keys@, k);
                    assert(self.keys@[i] == old(self).keys@[i]);
                }
                assert(self@ =~= old(self)@.insert(key@, value@));
            },
        }
    }
}

} // verus!
