use vstd::prelude::*;
use vstd::string::StringExecFns;

verus! {

/// Whether some entry of `e` has the key `k`.
pub open spec fn has_key(e: Seq<(String, String)>, k: Seq<char>) -> bool {
    exists|i: int| 0 <= i < e.len() && (#[trigger] e[i]).0@ == k
}

/// The index of an entry of `e` with the key `k`.
pub open spec fn key_index(e: Seq<(String, String)>, k: Seq<char>) -> int {
    choose|i: int| 0 <= i < e.len() && (#[trigger] e[i]).0@ == k
}

/// No two entries of `e` share a key.
pub open spec fn unique_keys(e: Seq<(String, String)>) -> bool {
    forall|i: int, j: int| 0 <= i < e.len() && 0 <= j < e.len() && i != j ==> (#[trigger] e[i]).0@ != (#[trigger] e[j]).0@
}

/// The map that a sequence of entries stands for.
pub open spec fn entries_map(e: Seq<(String, String)>) -> Map<Seq<char>, Seq<char>> {
    Map::new(|k: Seq<char>| has_key(e, k), |k: Seq<char>| e[key_index(e, k)].1@)
}

/// A map from names to values, such as the headers or the query arguments of a request.
/// Its entries keep the order in which their names were first inserted.
pub struct Fields {
    entries: Vec<(String, String)>,
}

impl View for Fields {
    type V = Map<Seq<char>, Seq<char>>;

    open spec fn view(&self) -> Map<Seq<char>, Seq<char>> {
        entries_map(self.entry_seq())
    }
}

impl Fields {
    /// The entries, in order.
    pub closed spec fn entry_seq(&self) -> Seq<(String, String)> {
        self.entries@
    }

    /// The entries have distinct names (kept by every operation).
    #[verifier::type_invariant]
    pub closed spec fn keys_unique(&self) -> bool {
        unique_keys(self.entries@)
    }

    /// The entries have distinct names; each one is in the map, and the map holds nothing else.
    pub proof fn lemma_entries(&self)
        requires
            self.keys_unique(),
        ensures
            unique_keys(self.entry_seq()),
            forall|i: int|
                0 <= i < self.entry_seq().len() ==> #[trigger] self@.contains_key(self.entry_seq()[i].0@)
                    && self@[self.entry_seq()[i].0@] == self.entry_seq()[i].1@,
            forall|k: Seq<char>| #[trigger] self@.contains_key(k) ==> has_key(self.entry_seq(), k),
    {
        assert forall|i: int| 0 <= i < self.entry_seq().len() implies #[trigger] self@.contains_key(self.entry_seq()[i].0@)
            && self@[self.entry_seq()[i].0@] == self.entry_seq()[i].1@ by {
            let e = self.entry_seq();
            assert(has_key(e, e[i].0@));
            let j = key_index(e, e[i].0@);
            assert(j == i);
        }
    }

    /// An empty map.
    pub fn new() -> (res: Fields)
        ensures
            res@ == Map::<Seq<char>, Seq<char>>::empty(),
            res.entry_seq().len() == 0,
    {
        let res = Fields { entries: Vec::new() };
        assert(res@ =~= Map::<Seq<char>, Seq<char>>::empty());
        res
    }

    /// The number of entries.
    pub fn len(&self) -> (res: usize)
        ensures
            res == self.entry_seq().len(),
    {
        self.entries.len()
    }

    /// The entry at position `i`.
    pub fn entry(&self, i: usize) -> (res: (&String, &String))
        requires
            i < self.entry_seq().len(),
        ensures
            *res.0 == self.entry_seq()[i as int].0,
            *res.1 == self.entry_seq()[i as int].1,
    {
        let e = &self.entries[i];
        (&e.0, &e.1)
    }

    /// The value of `key`, if it is in the map.
    pub fn get(&self, key: &str) -> (res: Option<&String>)
        ensures
            match res {
                Some(v) => self@.contains_key(key@) && v@ == self@[key@],
                None => !self@.contains_key(key@),
            },
    {
        proof {
            use_type_invariant(self);
            self.lemma_entries();
        }
        let key = String::from_str(key);
        match Self::position_in(&self.entries, &key) {
            Some(i) => {
                let e = &self.entries[i];
                Some(&e.1)
            },
            None => None,
        }
    }

    /// Sets `key` to `value`, replacing the value it had.
    pub fn insert(&mut self, key: String, value: String)
        ensures
            final(self)@ == old(self)@.insert(key@, value@),
    {
        proof {
            use_type_invariant(&*self);
        }
        let ghost old_e = self.entries@;
        let mut entries = Vec::new();
        std::mem::swap(&mut entries, &mut self.entries);
        let ghost k = key@;
        let ghost v = value@;
        let ghost mut at: int = 0;
        match Self::position_in(&entries, &key) {
            Some(i) => {
                entries.set(i, (key, value));
                proof { at = i as int; }
            },
            None => {
                entries.push((key, value));
                proof { at = old_e.len() as int; }
            },
        }
        let ghost e = entries@;
        assert(0 <= at < e.len() && e[at].0@ == k && e[at].1@ == v);
        assert(unique_keys(e));
        assert(entries_map(e) =~= entries_map(old_e).insert(k, v)) by {
            assert forall|x: Seq<char>| #[trigger] has_key(e, x) <==> has_key(old_e, x) || x == k by {
                if has_key(old_e, x) {
                    let j = choose|j: int| 0 <= j < old_e.len() && (#[trigger] old_e[j]).0@ == x;
                    assert(e[j].0@ == x);
                }
                if x == k {
                    assert(e[at].0@ == x);
                }
                if has_key(e, x) && x != k {
                    let j = choose|j: int| 0 <= j < e.len() && (#[trigger] e[j]).0@ == x;
                    assert(old_e[j].0@ == x);
                }
            }
            assert forall|x: Seq<char>| has_key(e, x) implies #[trigger] e[key_index(e, x)].1@ == entries_map(old_e).insert(k, v)[x] by {
                let j = key_index(e, x);
                if x != k {
                    let j2 = key_index(old_e, x);
                    assert(old_e[j].0@ == x);
                    assert(j == j2);
                }
            }
        }
        self.entries = entries;
    }

    /// Removes `key` from the map and gives back the value it had.
    pub fn remove(&mut self, key: &str) -> (res: Option<String>)
        ensures
            final(self)@ == old(self)@.remove(key@),
            match res {
                Some(v) => old(self)@.contains_key(key@) && v@ == old(self)@[key@],
                None => !old(self)@.contains_key(key@),
            },
    {
        proof {
            use_type_invariant(&*self);
            self.lemma_entries();
        }
        let ghost old_e = self.entries@;
        let key = String::from_str(key);
        let ghost k = key@;
        let mut entries = Vec::new();
        std::mem::swap(&mut entries, &mut self.entries);
        match Self::position_in(&entries, &key) {
            Some(i) => {
                let (_, value) = entries.remove(i);
                let ghost e = entries@;
                assert(e =~= old_e.remove(i as int));
                assert(unique_keys(e));
                assert(entries_map(e) =~= entries_map(old_e).remove(k)) by {
                    assert forall|x: Seq<char>| #[trigger] has_key(e, x) <==> has_key(old_e, x) && x != k by {
                        if has_key(old_e, x) && x != k {
                            let j = choose|j: int| 0 <= j < old_e.len() && (#[trigger] old_e[j]).0@ == x;
                            if j < i {
                                assert(e[j].0@ == x);
                            } else {
                                assert(e[j - 1].0@ == x);
                            }
                        }
                        if has_key(e, x) {
                            let j = choose|j: int| 0 <= j < e.len() && (#[trigger] e[j]).0@ == x;
                            if j < i {
                                assert(old_e[j].0@ == x);
                            } else {
                                assert(old_e[j + 1].0@ == x);
                            }
                        }
                    }
                    assert forall|x: Seq<char>| has_key(e, x) implies #[trigger] e[key_index(e, x)].1@ == entries_map(old_e)[x] by {
                        let j = key_index(e, x);
                        let j2 = key_index(old_e, x);
                        if j < i {
                            assert(old_e[j].0@ == x);
                            assert(j == j2);
                        } else {
                            assert(old_e[j + 1].0@ == x);
                            assert(j + 1 == j2);
                        }
                    }
                }
                self.entries = entries;
                Some(value)
            },
            None => {
                assert(entries_map(old_e).remove(k) =~= entries_map(old_e));
                self.entries = entries;
                None
            },
        }
    }

    fn position_in(entries: &Vec<(String, String)>, key: &String) -> (res: Option<usize>)
        ensures
            match res {
                Some(i) => i < entries@.len() && entries@[i as int].0@ == key@,
                None => !has_key(entries@, key@),
            },
    {
        let mut i: usize = 0;
        while i < entries.len()
            invariant
                i <= entries@.len(),
                forall|j: int| 0 <= j < i ==> (#[trigger] entries@[j]).0@ != key@,
            decreases entries@.len() - i,
        {
            if entries[i].0 == *key {
                return Some(i);
            }
            i = i + 1;
        }
        None
    }
}

} // verus!
