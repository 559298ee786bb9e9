//! Named game resources (sheets, vaults, ...), looked up by identifier.

use vstd::prelude::*;
use vstd::string::*;

verus! {

#[derive(Debug, Clone, PartialEq, Eq)]
pub enum Error {
    /// No resource has the identifier that was asked for.
    NotFound(String),
}

/// A set of resources of one kind, each with a distinct identifier.
#[derive(Debug)]
pub struct Resource<T> {
    entries: Vec<(String, T)>,
}

impl<T> Resource<T> {
    /// No two entries share an identifier.
    pub closed spec fn well_formed(&self) -> bool {
        forall|i: int, j: int|
            0 <= i < j < self.entries@.len() ==> #[trigger] self.entries@[i].0@
                != #[trigger] self.entries@[j].0@
    }

    /// The resources, by identifier.
    pub closed spec fn view(&self) -> Map<Seq<char>, T> {
        Map::new(
            |k: Seq<char>| exists|i: int| 0 <= i < self.entries@.len() && self.entries@[i].0@ == k,
            |k: Seq<char>|
                self.entries@[choose|i: int| 0 <= i < self.entries@.len() && self.entries@[i].0@ == k].1,
        )
    }

    proof fn lemma_view_at(&self, i: int)
        requires
            self.well_formed(),
            0 <= i < self.entries@.len(),
        ensures
            self.view().contains_key(self.entries@[i].0@),
            self.view()[self.entries@[i].0@] == self.entries@[i].1,
    {
        let k = self.entries@[i].0@;
        assert(self.view().contains_key(k));
        let j = choose|j: int| 0 <= j < self.entries@.len() && self.entries@[j].0@ == k;
        if i != j {
            if i < j {
                assert(self.entries@[i].0@ != self.entries@[j].0@);
            } else {
                assert(self.entries@[j].0@ != self.entries@[i].0@);
            }
        }
    }

    pub fn new() -> (res: Resource<T>)
        ensures
            res.well_formed(),
            res.view() == Map::<Seq<char>, T>::empty(),
    {
        let res = Resource { entries: Vec::new() };
        assert(res.view() =~= Map::<Seq<char>, T>::empty());
        res
    }

    fn position(&self, key: &str) -> (res: Option<usize>)
        requires
            self.well_formed(),
        ensures
            match res {
                Some(i) => i < self.entries@.len() && self.entries@[i as int].0@ == key@,
                None => !self.view().contains_key(key@),
            },
    {
        let wanted = String::from_str(key);
        let mut i: usize = 0;
        while i < self.entries.len()
            invariant
                0 <= i <= self.entries@.len(),
                wanted@ == key@,
                forall|j: int| 0 <= j < i ==> self.entries@[j].0@ != key@,
            decreases self.entries@.len() - i,
        {
            if self.entries[i].0 == wanted {
                return Some(i);
            }
            i += 1;
        }
        None
    }

    /// The resource with identifier `key`.
    pub fn get(&self, key: &str) -> (res: Result<&T, Error>)
        requires
            self.well_formed(),
        ensures
            match res {
                Ok(v) => self.view().contains_key(key@) && *v == self.view()[key@],
                Err(Error::NotFound(k)) => !self.view().contains_key(key@) && k@ == key@,
            },
    {
        match self.position(key) {
            Some(i) => {
                proof {
                    self.lemma_view_at(i as int);
                }
                Ok(&self.entries[i].1)
            },
            None => Err(Error::NotFound(String::from_str(key))),
        }
    }

    /// The stored identifier and the resource for `key`.
    pub fn get_key_value(&self, key: &str) -> (res: Result<(&str, &T), Error>)
        requires
            self.well_formed(),
        ensures
            match res {
                Ok((k, v)) => self.view().contains_key(key@) && *v == self.view()[key@] && k@
                    == key@,
                Err(Error::NotFound(k)) => !self.view().contains_key(key@) && k@ == key@,
            },
    {
        match self.position(key) {
            Some(i) => {
                proof {
                    self.lemma_view_at(i as int);
                }
                Ok((self.entries[i].0.as_str(), &self.entries[i].1))
            },
            None => Err(Error::NotFound(String::from_str(key))),
        }
    }

    /// Stores `value` under `key`, giving back the resource it replaces, if any.
    pub fn insert(&mut self, key: String, value: T) -> (res: Option<T>)
        requires
            old(self).well_formed(),
        ensures
            final(self).well_formed(),
            final(self).view() == old(self).view().insert(key@, value),
            match res {
                Some(v) => old(self).view().contains_key(key@) && v == old(self).view()[key@],
                None => !old(self).view().contains_key(key@),
            },
    {
        match self.position(key.as_str()) {
            Some(i) => {
                proof {
                    self.lemma_view_at(i as int);
                }
                let ghost before = *self;
                let (k, previous) = self.entries.remove(i);
                self.entries.insert(i, (k, value));
                assert forall|a: int, b: int|
                    0 <= a < b < self.entries@.len() implies #[trigger] self.entries@[a].0@
                        != #[trigger] self.entries@[b].0@ by {
                    assert(self.entries@[a].0@ == before.entries@[a].0@);
                    assert(self.entries@[b].0@ == before.entries@[b].0@);
                }
                assert(self.view() =~= before.view().insert(key@, value)) by {
                    assert forall|q: Seq<char>| #[trigger] self.view().contains_key(q) <==> before.view().insert(key@, value).contains_key(q) by {
                        if self.view().contains_key(q) {
                            let j = choose|j: int| 0 <= j < self.entries@.len() && self.entries@[j].0@ == q;
                            assert(before.entries@[j].0@ == q);
                        }
                        if before.view().contains_key(q) {
                            let j = choose|j: int| 0 <= j < before.entries@.len() && before.entries@[j].0@ == q;
                            assert(self.entries@[j].0@ == q);
                        }
                    }
                    assert forall|q: Seq<char>| #[trigger] self.view().contains_key(q) implies self.view()[q] == before.view().insert(key@, value)[q] by {
                        let j = choose|j: int| 0 <= j < self.entries@.len() && self.entries@[j].0@ == q;
                        self.lemma_view_at(j);
                        if j != i {
                            assert(before.entries@[j] == self.entries@[j]);
                            before.lemma_view_at(j);
                        }
                    }
                }
                Some(previous)
            },
            None => {
                let ghost before = *self;
                self.entries.push((key, value));
                assert forall|a: int, b: int|
                    0 <= a < b < self.entries@.len() implies #[trigger] self.entries@[a].0@
                        != #[trigger] self.entries@[b].0@ by {
                    if b == self.entries@.len() - 1 {
                        assert(before.entries@[a].0@ != key@) by {
                            if before.entries@[a].0@ == key@ {
                                assert(before.view().contains_key(key@));
                            }
                        }
                    }
                }
                assert(self.view() =~= before.view().insert(key@, value)) by {
                    assert forall|q: Seq<char>| #[trigger] self.view().contains_key(q) <==> before.view().insert(key@, value).contains_key(q) by {
                        if self.view().contains_key(q) && q != key@ {
                            let j = choose|j: int| 0 <= j < self.entries@.len() && self.entries@[j].0@ == q;
                            assert(before.entries@[j].0@ == q);
                        }
                        if before.view().contains_key(q) {
                            let j = choose|j: int| 0 <= j < before.entries@.len() && before.entries@[j].0@ == q;
                            assert(self.entries@[j].0@ == q);
                        }
                        if q == key@ {
                            assert(self.entries@[before.entries@.len() as int].0@ == q);
                        }
                    }
                    assert forall|q: Seq<char>| #[trigger] self.view().contains_key(q) implies self.view()[q] == before.view().insert(key@, value)[q] by {
                        let j = choose|j: int| 0 <= j < self.entries@.len() && self.entries@[j].0@ == q;
                        self.lemma_view_at(j);
                        if j < before.entries@.len() {
                            assert(before.entries@[j] == self.entries@[j]);
                            before.lemma_view_at(j);
                        }
                    }
                }
                None
            },
        }
    }
}

impl<T> Default for Resource<T> {
    fn default() -> (res: Resource<T>)
        ensures
            res.well_formed(),
            res.view() == Map::<Seq<char>, T>::empty(),
    {
        Self::new()
    }
}

/// A module whose resources could not be loaded, with what went wrong.
#[derive(Debug, Clone)]
pub struct FailedModule {
    pub name: String,
    pub errors: Vec<String>,
}

} // verus!
