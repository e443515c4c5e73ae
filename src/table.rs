use vstd::prelude::*;

verus! {

/// The position of key `k` in `keys`, where it occurs.
pub open spec fn key_index(keys: Seq<Seq<char>>, k: Seq<char>) -> int {
    choose|i: int| 0 <= i < keys.len() && keys[i] == k
}

/// A store of values keyed by strings, enumerated in a fixed order: a new key
/// goes last, and removing a key moves the last entry into its place.
pub struct Table<T> {
    keys: Vec<String>,
    values: Vec<T>,
}

impl<T> Table<T> {
    /// The keys, in enumeration order.
    pub closed spec fn key_seq(&self) -> Seq<Seq<char>> {
        self.keys@.map_values(|k: String| k@)
    }

    /// The values, in the order of their keys.
    pub closed spec fn value_seq(&self) -> Seq<T> {
        self.values@
    }

    /// One value per key, and no key twice.
    pub open spec fn wf(&self) -> bool {
        &&& self.key_seq().len() == self.value_seq().len()
        &&& self.key_seq().no_duplicates()
    }

    pub open spec fn spec_len(&self) -> nat {
        self.key_seq().len()
    }

    pub open spec fn has_key(&self, k: Seq<char>) -> bool {
        self.key_seq().contains(k)
    }

    /// The position of key `k`, which is in the table.
    pub open spec fn index_of(&self, k: Seq<char>) -> int {
        key_index(self.key_seq(), k)
    }

    pub fn new() -> (r: Table<T>)
        ensures
            r.wf(),
            r.key_seq().len() == 0,
    {
        Table { keys: Vec::new(), values: Vec::new() }
    }

    pub fn len(&self) -> (r: usize)
        requires
            self.wf(),
        ensures
            r == self.spec_len(),
    {
        self.keys.len()
    }

    /// The position of `key`, if it is in the table.
    pub fn find(&self, key: &String) -> (r: Option<usize>)
        requires
            self.wf(),
        ensures
            match r {
                Some(i) => i < self.spec_len() && self.key_seq()[i as int] == key@ && i
                    == self.index_of(key@) && self.has_key(key@),
                None => !self.has_key(key@),
            },
    {
        let mut i: usize = 0;
        while i < self.keys.len()
            invariant
                self.wf(),
                i <= self.keys@.len(),
                forall|j: int| 0 <= j < i ==> self.key_seq()[j] != key@,
            decreases self.keys@.len() - i,
        {
            if self.keys[i] == *key {
                proof {
                    self.lemma_index_of(i as int);
                }
                return Some(i);
            }
            i = i + 1;
        }
        None
    }

    /// In a well-formed table a key's position is the one that holds it.
    pub proof fn lemma_index_of(&self, i: int)
        requires
            self.wf(),
            0 <= i < self.spec_len(),
        ensures
            self.index_of(self.key_seq()[i]) == i,
            self.has_key(self.key_seq()[i]),
    {
        let k = self.key_seq()[i];
        assert(self.key_seq().contains(k));
        let j = self.index_of(k);
        assert(self.key_seq()[j] == k);
    }

    pub fn key_at(&self, i: usize) -> (r: &String)
        requires
            self.wf(),
            i < self.spec_len(),
        ensures
            r@ == self.key_seq()[i as int],
    {
        &self.keys[i]
    }

    pub fn value_at(&self, i: usize) -> (r: &T)
        requires
            self.wf(),
            i < self.spec_len(),
        ensures
            *r == self.value_seq()[i as int],
    {
        &self.values[i]
    }

    /// Puts `value` at position `i` and hands back the value that was there.
    pub fn replace_at(&mut self, i: usize, value: T) -> (r: T)
        requires
            old(self).wf(),
            i < old(self).spec_len(),
        ensures
            final(self).wf(),
            r == old(self).value_seq()[i as int],
            final(self).key_seq() == old(self).key_seq(),
            final(self).value_seq() == old(self).value_seq().update(i as int, value),
    {
        let mut v = value;
        std::mem::swap(&mut self.values[i], &mut v);
        proof {
            assert(self.key_seq() =~= old(self).key_seq());
        }
        v
    }

    /// Sets the value of `key`: in place when the key is there, else as a new
    /// last entry. Hands back the value that it replaces.
    pub fn insert(&mut self, key: String, value: T) -> (r: Option<T>)
        requires
            old(self).wf(),
        ensures
            final(self).wf(),
            old(self).has_key(key@) ==> {
                let i = old(self).index_of(key@);
                &&& r == Some(old(self).value_seq()[i])
                &&& final(self).key_seq() == old(self).key_seq()
                &&& final(self).value_seq() == old(self).value_seq().update(i, value)
            },
            !old(self).has_key(key@) ==> {
                &&& r is None
                &&& final(self).key_seq() == old(self).key_seq().push(key@)
                &&& final(self).value_seq() == old(self).value_seq().push(value)
            },
    {
        match self.find(&key) {
            Some(i) => Some(self.replace_at(i, value)),
            None => {
                let ghost k = key@;
                self.keys.push(key);
                self.values.push(value);
                proof {
                    assert(self.key_seq() =~= old(self).key_seq().push(k));
                    assert forall|a: int, b: int|
                        0 <= a < self.key_seq().len() && 0 <= b < self.key_seq().len() && a
                            != b implies self.key_seq()[a] != self.key_seq()[b] by {
                        if a < old(self).spec_len() && b < old(self).spec_len() {
                        } else if a < old(self).spec_len() {
                            assert(old(self).key_seq().contains(self.key_seq()[a]));
                        } else {
                            assert(old(self).key_seq().contains(self.key_seq()[b]));
                        }
                    }
                }
                None
            },
        }
    }

    /// Removes `key`, moving the last entry into its place, and hands back its
    /// value.
    pub fn remove(&mut self, key: &String) -> (r: Option<T>)
        requires
            old(self).wf(),
        ensures
            final(self).wf(),
            old(self).has_key(key@) ==> {
                let i = old(self).index_of(key@);
                let ks = old(self).key_seq();
                let vs = old(self).value_seq();
                &&& r == Some(vs[i])
                &&& final(self).key_seq() == ks.update(i, ks.last()).drop_last()
                &&& final(self).value_seq() == vs.update(i, vs.last()).drop_last()
            },
            !old(self).has_key(key@) ==> r is None && *final(self) == *old(self),
    {
        match self.find(key) {
            Some(i) => {
                let ghost ks = self.key_seq();
                self.keys.swap_remove(i);
                let v = self.values.swap_remove(i);
                proof {
                    let n = ks.len();
                    assert(self.key_seq() =~= ks.update(i as int, ks.last()).drop_last());
                    assert forall|a: int, b: int|
                        0 <= a < self.key_seq().len() && 0 <= b < self.key_seq().len() && a
                            != b implies self.key_seq()[a] != self.key_seq()[b] by {
                        let pa = if a == i {
                            n - 1
                        } else {
                            a
                        };
                        let pb = if b == i {
                            n - 1
                        } else {
                            b
                        };
                        assert(self.key_seq()[a] == ks[pa]);
                        assert(self.key_seq()[b] == ks[pb]);
                    }
                }
                Some(v)
            },
            None => None,
        }
    }
}

} // verus!
