//! A small table from names to values that keeps the order in which the
//! names were first inserted.

use vstd::prelude::*;
use vstd::string::StringExecFns;

verus! {

/// A table from names to values. Each name occurs once.
#[derive(Debug, Clone)]
pub struct StringMap<V> {
    pub keys: Vec<String>,
    pub values: Vec<V>,
}

/// Whether `keys` holds `key` at place `i`.
pub open spec fn key_at(keys: Seq<String>, key: Seq<char>, i: int) -> bool {
    0 <= i < keys.len() && keys[i]@ == key
}

/// Whether `key` is among the first `n` of `keys`.
pub open spec fn among(keys: Seq<String>, key: Seq<char>, n: int) -> bool {
    exists|i: int| 0 <= i < n && key_at(keys, key, i)
}

/// A name is among the first `n + 1` names if it is among the first `n` or
/// is the name at place `n`.
pub proof fn lemma_among_next(keys: Seq<String>, key: Seq<char>, n: int)
    requires
        0 <= n < keys.len(),
    ensures
        among(keys, key, n + 1) == (among(keys, key, n) || keys[n]@ == key),
{
    if among(keys, key, n + 1) {
        let i = choose|i: int| 0 <= i < n + 1 && key_at(keys, key, i);
        if i < n {
            assert(0 <= i < n && key_at(keys, key, i));
        }
    }
    if among(keys, key, n) {
        let i = choose|i: int| 0 <= i < n && key_at(keys, key, i);
        assert(0 <= i < n + 1 && key_at(keys, key, i));
    }
    if keys[n]@ == key {
        assert(0 <= n < n + 1 && key_at(keys, key, n));
    }
}

impl<V> StringMap<V> {
    /// One value for each name, and no name twice.
    pub open spec fn wf(&self) -> bool {
        &&& self.keys@.len() == self.values@.len()
        &&& forall|i: int, j: int|
            0 <= i < j < self.keys@.len() ==> (#[trigger] self.keys@[i])@ != (
            #[trigger] self.keys@[j])@
    }

    /// Whether the table has the name `key`.
    pub open spec fn has(&self, key: Seq<char>) -> bool {
        exists|i: int| key_at(self.keys@, key, i)
    }

    /// The place of the name `key`.
    pub open spec fn place(&self, key: Seq<char>) -> int {
        choose|i: int| key_at(self.keys@, key, i)
    }

    /// The table as a map from names to values.
    pub open spec fn view(&self) -> Map<Seq<char>, V> {
        Map::new(|key: Seq<char>| self.has(key), |key: Seq<char>| self.values@[self.place(key)])
    }

    /// In a well-formed table a name has one place.
    pub proof fn lemma_place(&self, key: Seq<char>, i: int)
        requires
            self.wf(),
            key_at(self.keys@, key, i),
        ensures
            self.has(key),
            self.place(key) == i,
            self@.contains_key(key),
            self@[key] == self.values@[i],
    {
        let p = self.place(key);
        assert(key_at(self.keys@, key, p));
        if p < i {
            assert(self.keys@[p]@ != self.keys@[i]@);
        }
        if i < p {
            assert(self.keys@[i]@ != self.keys@[p]@);
        }
    }

    /// The empty table.
    pub fn new() -> (table: Self)
        ensures
            table.wf(),
            table@ == Map::<Seq<char>, V>::empty(),
            table.keys@.len() == 0,
    {
        let table = StringMap { keys: Vec::new(), values: Vec::new() };
        assert(table@ =~= Map::<Seq<char>, V>::empty());
        table
    }

    /// The number of names.
    pub fn len(&self) -> (n: usize)
        requires
            self.wf(),
        ensures
            n == self.keys@.len(),
    {
        self.keys.len()
    }

    /// The place of the name `key`, if the table has it.
    pub fn index_of(&self, key: &str) -> (r: Option<usize>)
        requires
            self.wf(),
        ensures
            match r {
                Some(i) => key_at(self.keys@, key@, i as int) && self@.contains_key(key@)
                    && self@[key@] == self.values@[i as int],
                None => !self@.contains_key(key@),
            },
    {
        let wanted = String::from_str(key);
        let count: usize = self.keys.len();
        let mut i: usize = 0;
        while i < count
            invariant
                i <= count == self.keys@.len(),
                self.wf(),
                wanted@ == key@,
                forall|j: int| 0 <= j < i ==> !key_at(self.keys@, key@, j),
            decreases count - i,
        {
            if self.keys[i] == wanted {
                proof {
                    self.lemma_place(key@, i as int);
                }
                return Some(i);
            }
            i = i + 1;
        }
        None
    }

    /// Whether the table has the name `key`.
    pub fn contains_key(&self, key: &str) -> (b: bool)
        requires
            self.wf(),
        ensures
            b == self@.contains_key(key@),
    {
        self.index_of(key).is_some()
    }

    /// The value of the name `key`, if the table has it.
    pub fn get(&self, key: &str) -> (r: Option<&V>)
        requires
            self.wf(),
        ensures
            match r {
                Some(value) => self@.contains_key(key@) && *value == self@[key@],
                None => !self@.contains_key(key@),
            },
    {
        match self.index_of(key) {
            Some(i) => Some(&self.values[i]),
            None => None,
        }
    }

    /// Gives the name `key` the value `value`, whether the table had the
    /// name or not.
    pub fn insert(&mut self, key: String, value: V)
        requires
            old(self).wf(),
        ensures
            final(self).wf(),
            final(self)@ == old(self)@.insert(key@, value),
            old(self)@.contains_key(key@) ==> final(self).keys == old(self).keys,
            !old(self)@.contains_key(key@) ==> final(self).keys@ == old(self).keys@.push(key)
                && final(self).values@ == old(self).values@.push(value),
    {
        match self.index_of(key.as_str()) {
            Some(i) => {
                self.values.set(i, value);
                proof {
                    old(self).lemma_set(*self, i as int, value);
                }
            },
            None => {
                self.keys.push(key);
                self.values.push(value);
                proof {
                    old(self).lemma_push(*self, key, value);
                }
            },
        }
    }

    /// Replaces the value at place `i`.
    pub fn set_value(&mut self, i: usize, value: V)
        requires
            old(self).wf(),
            i < old(self).keys@.len(),
        ensures
            final(self).wf(),
            final(self).keys == old(self).keys,
            final(self).values@ == old(self).values@.update(i as int, value),
            final(self)@ == old(self)@.insert(old(self).keys@[i as int]@, value),
    {
        self.values.set(i, value);
        proof {
            old(self).lemma_set(*self, i as int, value);
        }
    }

    /// A table with the value at one place replaced is the map with that
    /// name's value replaced.
    pub proof fn lemma_set(self, after: Self, i: int, value: V)
        requires
            self.wf(),
            0 <= i < self.keys@.len(),
            after.keys == self.keys,
            after.values@ == self.values@.update(i, value),
        ensures
            after.wf(),
            after@ == self@.insert(self.keys@[i]@, value),
    {
        let key = self.keys@[i]@;
        assert forall|k: Seq<char>| after.has(k) == self.has(k) by {
            if self.has(k) {
                assert(key_at(after.keys@, k, self.place(k)));
            }
            if after.has(k) {
                assert(key_at(self.keys@, k, after.place(k)));
            }
        }
        self.lemma_place(key, i);
        assert forall|k: Seq<char>| #[trigger]
            after@.contains_key(k) implies after@[k] == self@.insert(key, value)[k] by {
            let p = after.place(k);
            assert(key_at(after.keys@, k, p));
            after.lemma_place(k, p);
            self.lemma_place(k, p);
        }
        assert(after@ =~= self@.insert(key, value));
    }

    /// A table with a new name and its value added at the end is the map
    /// with that name inserted.
    #[verifier::spinoff_prover]
    pub proof fn lemma_push(self, after: Self, key: String, value: V)
        requires
            self.wf(),
            !self.has(key@),
            after.keys@ == self.keys@.push(key),
            after.values@ == self.values@.push(value),
        ensures
            after.wf(),
            after@ == self@.insert(key@, value),
    {
        let n = self.keys@.len() as int;
        assert forall|i: int, j: int| 0 <= i < j < after.keys@.len() implies (
        #[trigger] after.keys@[i])@ != (#[trigger] after.keys@[j])@ by {
            if j < n {
                assert(after.keys@[i] == self.keys@[i]);
                assert(after.keys@[j] == self.keys@[j]);
            } else {
                assert(after.keys@[i] == self.keys@[i]);
                assert(!key_at(self.keys@, key@, i));
            }
        }
        assert(key_at(after.keys@, key@, n));
        after.lemma_place(key@, n);
        assert forall|k: Seq<char>| after.has(k) == (self.has(k) || k == key@) by {
            if self.has(k) {
                let p = self.place(k);
                assert(after.keys@[p] == self.keys@[p]);
                assert(key_at(after.keys@, k, p));
            }
            if after.has(k) && k != key@ {
                let p = after.place(k);
                assert(after.keys@[p] == self.keys@[p]);
                assert(key_at(self.keys@, k, p));
            }
        }
        assert forall|k: Seq<char>| #[trigger]
            after@.contains_key(k) implies after@[k] == self@.insert(key@, value)[k] by {
            let p = after.place(k);
            assert(key_at(after.keys@, k, p));
            after.lemma_place(k, p);
            if k != key@ {
                assert(after.keys@[p] == self.keys@[p]);
                self.lemma_place(k, p);
            }
        }
        assert(after@ =~= self@.insert(key@, value));
    }

    /// Takes the name `key` and its value out of the table, if it is there.
    pub fn remove(&mut self, key: &str)
        requires
            old(self).wf(),
        ensures
            final(self).wf(),
            final(self)@ == old(self)@.remove(key@),
    {
        match self.index_of(key) {
            Some(i) => {
                self.keys.remove(i);
                self.values.remove(i);
                proof {
                    old(self).lemma_remove(*self, i as int);
                }
            },
            None => {
                assert(self@ =~= old(self)@.remove(key@));
            },
        }
    }

    /// A table without the name and the value at one place is the map
    /// without that name.
    #[verifier::spinoff_prover]
    pub proof fn lemma_remove(self, after: Self, i: int)
        requires
            self.wf(),
            0 <= i < self.keys@.len(),
            after.keys@ == self.keys@.remove(i),
            after.values@ == self.values@.remove(i),
        ensures
            after.wf(),
            after@ == self@.remove(self.keys@[i]@),
    {
        let key = self.keys@[i]@;
        let shift = |p: int| if p < i { p } else { p + 1 };
        assert forall|p: int| 0 <= p < after.keys@.len() implies #[trigger] after.keys@[p]
            == self.keys@[shift(p)] && after.values@[p] == self.values@[shift(p)] by {}
        assert forall|a: int, b: int| 0 <= a < b < after.keys@.len() implies (
        #[trigger] after.keys@[a])@ != (#[trigger] after.keys@[b])@ by {
            assert(after.keys@[a] == self.keys@[shift(a)]);
            assert(after.keys@[b] == self.keys@[shift(b)]);
            assert(self.keys@[shift(a)]@ != self.keys@[shift(b)]@);
        }
        assert forall|k: Seq<char>| after.has(k) == (self.has(k) && k != key) by {
            if after.has(k) {
                let p = after.place(k);
                assert(after.keys@[p] == self.keys@[shift(p)]);
                assert(key_at(self.keys@, k, shift(p)));
                if k == key {
                    self.lemma_place(key, i);
                    self.lemma_place(key, shift(p));
                }
            }
            if self.has(k) && k != key {
                let q = self.place(k);
                assert(key_at(self.keys@, k, q));
                let p = if q < i {
                    q
                } else {
                    q - 1
                };
                assert(after.keys@[p] == self.keys@[shift(p)]);
                assert(key_at(after.keys@, k, p));
            }
        }
        assert forall|k: Seq<char>| #[trigger]
            after@.contains_key(k) implies after@[k] == self@.remove(key)[k] by {
            let p = after.place(k);
            assert(key_at(after.keys@, k, p));
            after.lemma_place(k, p);
            assert(after.keys@[p] == self.keys@[shift(p)]);
            self.lemma_place(k, shift(p));
        }
        assert(after@ =~= self@.remove(key));
    }
}

} // verus!
