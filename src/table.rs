//! A table keyed by account id, kept as a vector of entries with distinct keys.
use vstd::prelude::*;

verus! {

/// Entries keyed by account id; each account appears at most once.
pub struct AccountTable<T> {
    pub entries: Vec<(String, T)>,
}

impl<T> AccountTable<T> {
    /// No two entries share an account.
    pub closed spec fn wf(&self) -> bool {
        forall|i: int, j: int|
            0 <= i < j < self.entries@.len() ==> #[trigger] self.entries@[i].0@
                != #[trigger] self.entries@[j].0@
    }

    spec fn has_at(&self, k: Seq<char>, i: int) -> bool {
        0 <= i < self.entries@.len() && self.entries@[i].0@ == k
    }

    /// The table as a map from account id to value.
    pub closed spec fn view(&self) -> Map<Seq<char>, T> {
        Map::new(
            |k: Seq<char>| exists|i: int| self.has_at(k, i),
            |k: Seq<char>| self.entries@[choose|i: int| self.has_at(k, i)].1,
        )
    }

    proof fn lemma_index(&self, i: int)
        requires
            self.wf(),
            0 <= i < self.entries@.len(),
        ensures
            self.view().contains_key(self.entries@[i].0@),
            self.view()[self.entries@[i].0@] == self.entries@[i].1,
    {
        let k = self.entries@[i].0@;
        assert(self.has_at(k, i));
        let c = choose|c: int| self.has_at(k, c);
        assert(c == i);
    }

    pub fn new() -> (r: Self)
        ensures
            r.wf(),
            r.view() == Map::<Seq<char>, T>::empty(),
    {
        let r = AccountTable { entries: Vec::new() };
        assert(r.view() =~= Map::<Seq<char>, T>::empty());
        r
    }

    /// Position of the entry for `k`, if there is one.
    fn find(&self, k: &String) -> (r: Option<usize>)
        requires
            self.wf(),
        ensures
            match r {
                Some(i) => i < self.entries@.len() && self.entries@[i as int].0@ == k@
                    && self.view().contains_key(k@) && self.view()[k@] == self.entries@[i as int].1,
                None => !self.view().contains_key(k@),
            },
    {
        let mut i: usize = 0;
        while i < self.entries.len()
            invariant
                self.wf(),
                i <= self.entries@.len(),
                forall|j: int| 0 <= j < i ==> self.entries@[j].0@ != k@,
            decreases self.entries@.len() - i,
        {
            if self.entries[i].0 == *k {
                proof {
                    self.lemma_index(i as int);
                }
                return Some(i);
            }
            i = i + 1;
        }
        None
    }

    /// The value stored for `k`.
    pub fn get(&self, k: &String) -> (r: Option<&T>)
        requires
            self.wf(),
        ensures
            match r {
                Some(v) => self.view().contains_key(k@) && *v == self.view()[k@],
                None => !self.view().contains_key(k@),
            },
    {
        match self.find(k) {
            Some(i) => Some(&self.entries[i].1),
            None => None,
        }
    }

    /// Stores `v` for `k`, replacing what was stored for it.
    pub fn insert(&mut self, k: String, v: T)
        requires
            old(self).wf(),
        ensures
            final(self).wf(),
            final(self).view() == old(self).view().insert(k@, v),
    {
        let ghost pre = *self;
        let ghost key = k@;
        match self.find(&k) {
            Some(i) => {
                self.entries.set(i, (k, v));
                proof {
                    assert forall|a: Seq<char>|
                        #[trigger] self.view().contains_key(a) == pre.view().insert(key, v).contains_key(a) by {
                        if a != key {
                            if exists|j: int| pre.has_at(a, j) {
                                let j = choose|j: int| pre.has_at(a, j);
                                assert(self.has_at(a, j));
                            }
                            if exists|j: int| self.has_at(a, j) {
                                let j = choose|j: int| self.has_at(a, j);
                                assert(pre.has_at(a, j));
                            }
                        } else {
                            assert(self.has_at(a, i as int));
                        }
                    }
                    assert forall|a: Seq<char>| #[trigger] self.view().contains_key(a) implies
                        self.view()[a] == pre.view().insert(key, v)[a] by {
                        let j = choose|j: int| self.has_at(a, j);
                        self.lemma_index(j);
                        if a != key {
                            pre.lemma_index(j);
                        } else {
                            assert(j == i);
                        }
                    }
                    assert(self.view() =~= pre.view().insert(key, v));
                }
            },
            None => {
                self.entries.push((k, v));
                proof {
                    let n = pre.entries@.len() as int;
                    assert(pre.has_at(key, n) == false);
                    assert forall|j: int| 0 <= j < n implies self.entries@[j].0@ != key by {
                        if self.entries@[j].0@ == key {
                            assert(pre.has_at(key, j));
                        }
                    }
                    assert forall|a: Seq<char>|
                        #[trigger] self.view().contains_key(a) == pre.view().insert(key, v).contains_key(a) by {
                        if a != key {
                            if exists|j: int| pre.has_at(a, j) {
                                let j = choose|j: int| pre.has_at(a, j);
                                assert(self.has_at(a, j));
                            }
                            if exists|j: int| self.has_at(a, j) {
                                let j = choose|j: int| self.has_at(a, j);
                                assert(pre.has_at(a, j));
                            }
                        } else {
                            assert(self.has_at(a, n));
                        }
                    }
                    assert forall|a: Seq<char>| #[trigger] self.view().contains_key(a) implies
                        self.view()[a] == pre.view().insert(key, v)[a] by {
                        let j = choose|j: int| self.has_at(a, j);
                        self.lemma_index(j);
                        if a != key {
                            pre.lemma_index(j);
                        } else {
                            assert(j == n);
                        }
                    }
                    assert(self.view() =~= pre.view().insert(key, v));
                }
            },
        }
    }
}

} // verus!
