//! The key-value store that committed writes are applied to.

use crate::logic::{ReadRequest, ReadResponse, WriteRequest, WriteResponse};
use vstd::prelude::*;

verus! {

/// Why a request could not be served.
#[derive(PartialEq, Eq, Clone, Copy, Debug, Structural)]
pub enum EpaxosError {
    /// A read of a key that was never written.
    KeyNotFound,
}

/// The value under each key, as the pairs `(key, value)` hold them.
pub open spec fn store_of(s: Seq<(String, i32)>) -> Map<Seq<char>, i32> {
    Map::new(
        |k: Seq<char>| exists|j: int| 0 <= j < s.len() && (#[trigger] s[j]).0@ == k,
        |k: Seq<char>| s[choose|j: int| 0 <= j < s.len() && (#[trigger] s[j]).0@ == k].1,
    )
}

/// No key appears twice.
pub open spec fn keys_unique(s: Seq<(String, i32)>) -> bool {
    forall|i: int, j: int| 0 <= i < j < s.len() ==> (#[trigger] s[i]).0@ != (#[trigger] s[j]).0@
}

proof fn lemma_store_at(s: Seq<(String, i32)>, j: int)
    requires
        keys_unique(s),
        0 <= j < s.len(),
    ensures
        store_of(s).contains_key(s[j].0@),
        store_of(s)[s[j].0@] == s[j].1,
{
    let k = s[j].0@;
    assert(exists|m: int| 0 <= m < s.len() && (#[trigger] s[m]).0@ == k);
    let m = choose|m: int| 0 <= m < s.len() && (#[trigger] s[m]).0@ == k;
    assert(m == j);
}

/// The replica's key-value store.
pub struct Store {
    pub entries: Vec<(String, i32)>,
}

impl View for Store {
    type V = Map<Seq<char>, i32>;

    open spec fn view(&self) -> Map<Seq<char>, i32> {
        store_of(self.entries@)
    }
}

impl Store {
    pub open spec fn wf(&self) -> bool {
        keys_unique(self.entries@)
    }

    /// An empty store.
    pub fn new() -> (r: Store)
        ensures
            r.wf(),
            r@ == Map::<Seq<char>, i32>::empty(),
    {
        let r = Store { entries: Vec::new() };
        assert(r@ =~= Map::<Seq<char>, i32>::empty());
        r
    }

    /// Position of `key`, if it is stored.
    fn find(&self, key: &String) -> (r: Option<usize>)
        requires
            self.wf(),
        ensures
            r.is_none() == !self@.contains_key(key@),
            r.is_some() ==> r.unwrap() < self.entries@.len() && self.entries@[r.unwrap() as int].0@
                == key@,
    {
        let mut j: usize = 0;
        while j < self.entries.len()
            invariant
                j <= self.entries@.len(),
                forall|m: int| 0 <= m < j ==> (#[trigger] self.entries@[m]).0@ != key@,
            decreases self.entries@.len() - j,
        {
            if self.entries[j].0 == *key {
                return Some(j);
            }
            j = j + 1;
        }
        None
    }

    /// The value stored under `key`.
    pub fn get(&self, key: &String) -> (r: Result<i32, EpaxosError>)
        requires
            self.wf(),
        ensures
            r == if self@.contains_key(key@) {
                Ok::<i32, EpaxosError>(self@[key@])
            } else {
                Err::<i32, EpaxosError>(EpaxosError::KeyNotFound)
            },
    {
        match self.find(key) {
            Some(j) => {
                proof {
                    lemma_store_at(self.entries@, j as int);
                }
                Ok(self.entries[j].1)
            },
            None => Err(EpaxosError::KeyNotFound),
        }
    }

    /// Stores `value` under `key`, replacing what was there.
    pub fn insert(&mut self, key: String, value: i32)
        requires
            old(self).wf(),
        ensures
            final(self).wf(),
            final(self)@ == old(self)@.insert(key@, value),
    {
        let ghost before = self.entries@;
        let ghost k = key@;
        match self.find(&key) {
            Some(j) => {
                self.entries.set(j, (key, value));
                proof {
                    let after = self.entries@;
                    assert forall|a: int, b: int| 0 <= a < b < after.len() implies (
                    #[trigger] after[a]).0@ != (#[trigger] after[b]).0@ by {
                        assert(before[a].0@ != before[b].0@);
                    }
                    assert forall|q: Seq<char>| #[trigger] store_of(after).contains_key(q)
                        <==> store_of(before).insert(k, value).contains_key(q) by {
                        if store_of(after).contains_key(q) {
                            let m = choose|m: int| 0 <= m < after.len() && (#[trigger] after[m]).0@ == q;
                            assert(before[m].0@ == q);
                        }
                        if store_of(before).contains_key(q) {
                            let m = choose|m: int| 0 <= m < before.len() && (#[trigger] before[m]).0@ == q;
                            assert(after[m].0@ == q);
                        }
                        if q == k {
                            assert(after[j as int].0@ == q);
                        }
                    }
                    assert forall|q: Seq<char>| #[trigger] store_of(after).contains_key(q)
                        implies store_of(after)[q] == store_of(before).insert(k, value)[q] by {
                        let m = choose|m: int| 0 <= m < after.len() && (#[trigger] after[m]).0@ == q;
                        lemma_store_at(after, m);
                        if m != j {
                            lemma_store_at(before, m);
                            assert(before[m].0@ != before[j as int].0@);
                        }
                    }
                    assert(store_of(after) =~= store_of(before).insert(k, value));
                }
            },
            None => {
                self.entries.push((key, value));
                proof {
                    let after = self.entries@;
                    let n = before.len() as int;
                    assert forall|a: int, b: int| 0 <= a < b < after.len() implies (
                    #[trigger] after[a]).0@ != (#[trigger] after[b]).0@ by {
                        if b == n {
                            assert(after[a] == before[a]);
                            assert(!store_of(before).contains_key(k));
                        } else {
                            assert(before[a].0@ != before[b].0@);
                        }
                    }
                    assert forall|q: Seq<char>| #[trigger] store_of(after).contains_key(q)
                        <==> store_of(before).insert(k, value).contains_key(q) by {
                        if store_of(after).contains_key(q) {
                            let m = choose|m: int| 0 <= m < after.len() && (#[trigger] after[m]).0@ == q;
                            if m < n {
                                assert(before[m].0@ == q);
                            }
                        }
                        if store_of(before).contains_key(q) {
                            let m = choose|m: int| 0 <= m < before.len() && (#[trigger] before[m]).0@ == q;
                            assert(after[m].0@ == q);
                        }
                        if q == k {
                            assert(after[n].0@ == q);
                        }
                    }
                    assert forall|q: Seq<char>| #[trigger] store_of(after).contains_key(q)
                        implies store_of(after)[q] == store_of(before).insert(k, value)[q] by {
                        let m = choose|m: int| 0 <= m < after.len() && (#[trigger] after[m]).0@ == q;
                        lemma_store_at(after, m);
                        if m < n {
                            lemma_store_at(before, m);
                        }
                    }
                    assert(store_of(after) =~= store_of(before).insert(k, value));
                }
            },
        }
    }

    /// Applies a committed write.
    pub fn apply(&mut self, write_req: &WriteRequest)
        requires
            old(self).wf(),
        ensures
            final(self).wf(),
            final(self)@ == old(self)@.insert(write_req.key@, write_req.value),
    {
        self.insert(write_req.key.clone(), write_req.value);
    }

    /// Ends a client write: a committed write is applied and reported as
    /// committed; a failed round leaves the store as it was.
    pub fn write(&mut self, write_req: &WriteRequest, committed: bool) -> (r: WriteResponse)
        requires
            old(self).wf(),
        ensures
            final(self).wf(),
            r.commit == committed,
            final(self)@ == if committed {
                old(self)@.insert(write_req.key@, write_req.value)
            } else {
                old(self)@
            },
    {
        if committed {
            self.apply(write_req);
        }
        WriteResponse { commit: committed }
    }

    /// Serves a client read.
    pub fn read(&self, read_req: &ReadRequest) -> (r: Result<ReadResponse, EpaxosError>)
        requires
            self.wf(),
        ensures
            self@.contains_key(read_req.key@) ==> r == Ok::<ReadResponse, EpaxosError>(
                ReadResponse { value: self@[read_req.key@] },
            ),
            !self@.contains_key(read_req.key@) ==> r == Err::<ReadResponse, EpaxosError>(
                EpaxosError::KeyNotFound,
            ),
    {
        match self.get(&read_req.key) {
            Ok(v) => Ok(ReadResponse { value: v }),
            Err(e) => Err(e),
        }
    }
}

} // verus!
