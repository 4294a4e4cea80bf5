//! The transaction buffer: the keys one command reads and writes, held in
//! memory for the length of a transaction. It is filled from the backing
//! store's snapshot, changed by a command context, and its dirty entries are
//! then written back and committed as one transaction.
use vstd::prelude::*;
use crate::encoding::bytes_eq;

verus! {

/// A map from physical keys to values, with a record of what was changed.
pub struct TxnBuffer {
    keys: Vec<Vec<u8>>,
    vals: Vec<Option<Vec<u8>>>,
    dirty: Vec<bool>,
}

impl TxnBuffer {
    /// Keys are distinct, and the three columns have one length.
    pub closed spec fn wf(&self) -> bool {
        &&& self.keys@.len() == self.vals@.len()
        &&& self.keys@.len() == self.dirty@.len()
        &&& forall|i: int, j: int|
            0 <= i < j < self.keys@.len() ==> (#[trigger] self.keys@[i])@ != (
            #[trigger] self.keys@[j])@
    }

    spec fn has(&self, k: Seq<u8>) -> bool {
        exists|i: int| 0 <= i < self.keys@.len() && (#[trigger] self.keys@[i])@ == k
    }

    spec fn find(&self, k: Seq<u8>) -> int {
        choose|i: int| 0 <= i < self.keys@.len() && (#[trigger] self.keys@[i])@ == k
    }

    /// The live entries.
    pub closed spec fn view(&self) -> Map<Seq<u8>, Seq<u8>> {
        Map::new(
            |k: Seq<u8>| self.has(k) && self.vals@[self.find(k)] is Some,
            |k: Seq<u8>| self.vals@[self.find(k)].unwrap()@,
        )
    }

    /// The keys written or deleted since the buffer was filled.
    pub closed spec fn dirty_keys(&self) -> Set<Seq<u8>> {
        Set::new(|k: Seq<u8>| self.has(k) && self.dirty@[self.find(k)])
    }

    proof fn lemma_find(&self, i: int)
        requires
            self.wf(),
            0 <= i < self.keys@.len(),
        ensures
            self.has(self.keys@[i]@),
            self.find(self.keys@[i]@) == i,
    {
        let k = self.keys@[i]@;
        assert(self.has(k));
        let j = self.find(k);
        if j != i {
            if j < i {
                assert((self.keys@[j])@ != (self.keys@[i])@);
            } else {
                assert((self.keys@[i])@ != (self.keys@[j])@);
            }
        }
    }

    pub fn new() -> (r: TxnBuffer)
        ensures
            r.wf(),
            r@ == Map::<Seq<u8>, Seq<u8>>::empty(),
            r.dirty_keys() == Set::<Seq<u8>>::empty(),
    {
        let r = TxnBuffer { keys: Vec::new(), vals: Vec::new(), dirty: Vec::new() };
        assert(r@ =~= Map::<Seq<u8>, Seq<u8>>::empty());
        assert(r.dirty_keys() =~= Set::<Seq<u8>>::empty());
        r
    }

    /// Where `k` stands, if it does.
    fn index_of(&self, k: &[u8]) -> (r: Option<usize>)
        requires
            self.wf(),
        ensures
            r is Some <==> self.has(k@),
            r is Some ==> r.unwrap() < self.keys@.len() && self.keys@[r.unwrap() as int]@ == k@
                && self.find(k@) == r.unwrap(),
    {
        let mut i: usize = 0;
        while i < self.keys.len()
            invariant
                self.wf(),
                i <= self.keys@.len(),
                forall|j: int| 0 <= j < i ==> (#[trigger] self.keys@[j])@ != k@,
            decreases self.keys@.len() - i,
        {
            if bytes_eq(self.keys[i].as_slice(), k) {
                proof {
                    self.lemma_find(i as int);
                }
                return Some(i);
            }
            i = i + 1;
        }
        None
    }

    /// The value under `k`.
    pub fn get(&self, k: &[u8]) -> (r: Option<Vec<u8>>)
        requires
            self.wf(),
        ensures
            r is Some <==> self@.contains_key(k@),
            r is Some ==> r.unwrap()@ == self@[k@],
    {
        match self.index_of(k) {
            Some(i) => match &self.vals[i] {
                Some(v) => Some(v.clone()),
                None => None,
            },
            None => None,
        }
    }

    fn set_at(&mut self, i: usize, v: Option<Vec<u8>>, dirty: bool)
        requires
            i < old(self).keys@.len(),
            old(self).keys@.len() == old(self).vals@.len(),
            old(self).keys@.len() == old(self).dirty@.len(),
        ensures
            final(self).keys@ == old(self).keys@,
            final(self).vals@ == old(self).vals@.update(i as int, v),
            final(self).dirty@ == old(self).dirty@.update(i as int, dirty),
    {
        self.vals.set(i, v);
        self.dirty.set(i, dirty);
    }

    fn append(&mut self, k: Vec<u8>, v: Option<Vec<u8>>, dirty: bool)
        requires
            !old(self).has(k@),
        ensures
            final(self).keys@ == old(self).keys@.push(k),
            final(self).vals@ == old(self).vals@.push(v),
            final(self).dirty@ == old(self).dirty@.push(dirty),
    {
        self.keys.push(k);
        self.vals.push(v);
        self.dirty.push(dirty);
    }

    /// Writes `v` under `k`, as part of the transaction.
    pub fn put(&mut self, k: Vec<u8>, v: Vec<u8>)
        requires
            old(self).wf(),
        ensures
            final(self).wf(),
            final(self)@ == old(self)@.insert(k@, v@),
            final(self).dirty_keys() == old(self).dirty_keys().insert(k@),
    {
        self.store(k, Some(v), true);
    }

    /// Deletes `k`, as part of the transaction.
    pub fn delete(&mut self, k: &[u8])
        requires
            old(self).wf(),
        ensures
            final(self).wf(),
            final(self)@ == old(self)@.remove(k@),
            final(self).dirty_keys() == old(self).dirty_keys().insert(k@),
    {
        let mut key: Vec<u8> = Vec::new();
        crate::encoding::push_bytes(&mut key, k);
        self.store(key, None, true);
    }

    /// Records `k` as read from the backing store with value `v`; it is not
    /// written back unless later changed.
    pub fn load(&mut self, k: Vec<u8>, v: Vec<u8>)
        requires
            old(self).wf(),
            !old(self).dirty_keys().contains(k@),
        ensures
            final(self).wf(),
            final(self)@ == old(self)@.insert(k@, v@),
            final(self).dirty_keys() == old(self).dirty_keys(),
    {
        self.store(k, Some(v), false);
    }

    fn store(&mut self, k: Vec<u8>, v: Option<Vec<u8>>, dirty: bool)
        requires
            old(self).wf(),
            !dirty ==> !old(self).dirty_keys().contains(k@),
        ensures
            final(self).wf(),
            v is Some ==> final(self)@ == old(self)@.insert(k@, v.unwrap()@),
            v is None ==> final(self)@ == old(self)@.remove(k@),
            dirty ==> final(self).dirty_keys() == old(self).dirty_keys().insert(k@),
            !dirty ==> final(self).dirty_keys() == old(self).dirty_keys(),
    {
        let ghost pre = *self;
        match self.index_of(k.as_slice()) {
            Some(i) => {
                self.set_at(i, v, dirty);
                proof {
                    assert forall|q: Seq<u8>| self.has(q) <==> pre.has(q) by {
                        if pre.has(q) {
                            let j = pre.find(q);
                            assert(self.keys@[j]@ == q);
                        }
                        if self.has(q) {
                            let j = self.find(q);
                            assert(pre.keys@[j]@ == q);
                        }
                    }
                    assert forall|q: Seq<u8>| pre.has(q) implies self.find(q) == pre.find(q) by {
                        let j = pre.find(q);
                        self.lemma_find(j);
                    }
                    self.lemma_find(i as int);
                }
            },
            None => {
                self.append(k, v, dirty);
                proof {
                    let n = pre.keys@.len() as int;
                    self.lemma_find(n);
                    assert forall|q: Seq<u8>| self.has(q) <==> (pre.has(q) || q == k@) by {
                        if pre.has(q) {
                            let j = pre.find(q);
                            assert(self.keys@[j]@ == q);
                        }
                        if self.has(q) && q != k@ {
                            let j = self.find(q);
                            assert(j != n);
                            assert(pre.keys@[j]@ == q);
                        }
                    }
                    assert forall|q: Seq<u8>| pre.has(q) implies self.find(q) == pre.find(q) by {
                        let j = pre.find(q);
                        self.lemma_find(j);
                    }
                }
            },
        }
        proof {
            if v is Some {
                assert(self@ =~= pre@.insert(k@, v.unwrap()@));
            } else {
                assert(self@ =~= pre@.remove(k@));
            }
            if dirty {
                assert(self.dirty_keys() =~= pre.dirty_keys().insert(k@));
            } else {
                assert(self.dirty_keys() =~= pre.dirty_keys());
            }
        }
    }

    /// The changes to write back: each changed key with its new value, or
    /// `None` where it was deleted.
    pub fn writes(&self) -> (r: Vec<(Vec<u8>, Option<Vec<u8>>)>)
        requires
            self.wf(),
        ensures
            forall|i: int|
                0 <= i < r@.len() ==> self.dirty_keys().contains((#[trigger] r@[i]).0@) && (
                r@[i].1 is Some <==> self@.contains_key(r@[i].0@)) && (r@[i].1 is Some
                    ==> r@[i].1.unwrap()@ == self@[r@[i].0@]),
            forall|k: Seq<u8>|
                #[trigger] self.dirty_keys().contains(k) ==> exists|i: int|
                    0 <= i < r@.len() && (#[trigger] r@[i]).0@ == k,
    {
        let mut r: Vec<(Vec<u8>, Option<Vec<u8>>)> = Vec::new();
        let mut i: usize = 0;
        while i < self.keys.len()
            invariant
                self.wf(),
                i <= self.keys@.len(),
                forall|m: int|
                    0 <= m < r@.len() ==> self.dirty_keys().contains((#[trigger] r@[m]).0@) && (
                    r@[m].1 is Some <==> self@.contains_key(r@[m].0@)) && (r@[m].1 is Some
                        ==> r@[m].1.unwrap()@ == self@[r@[m].0@]),
                forall|j: int|
                    0 <= j < i && #[trigger] self.dirty@[j] ==> exists|m: int|
                        0 <= m < r@.len() && (#[trigger] r@[m]).0@ == self.keys@[j]@,
            decreases self.keys@.len() - i,
        {
            proof {
                self.lemma_find(i as int);
            }
            let ghost old_r = r@;
            if self.dirty[i] {
                let k = self.keys[i].clone();
                let v = match &self.vals[i] {
                    Some(v) => Some(v.clone()),
                    None => None,
                };
                assert(k@ == self.keys@[i as int]@);
                r.push((k, v));
                assert(r@[r@.len() - 1].0@ == self.keys@[i as int]@);
            }
            proof {
                assert forall|j: int|
                    0 <= j < i + 1 && #[trigger] self.dirty@[j] implies exists|m: int|
                        0 <= m < r@.len() && (#[trigger] r@[m]).0@ == self.keys@[j]@ by {
                    if j < i {
                        let m = choose|m: int|
                            0 <= m < old_r.len() && (#[trigger] old_r[m]).0@ == self.keys@[j]@;
                        assert(r@[m] == old_r[m]);
                    } else {
                        assert(r@[r@.len() - 1].0@ == self.keys@[j]@);
                    }
                }
            }
            i = i + 1;
        }
        proof {
            assert forall|k: Seq<u8>| #[trigger] self.dirty_keys().contains(k) implies exists|m: int|
                0 <= m < r@.len() && (#[trigger] r@[m]).0@ == k by {
                let j = self.find(k);
                assert(self.dirty@[j]);
            }
        }
        r
    }

    /// The live entries whose key starts with `prefix`, each once.
    pub fn scan_prefix(&self, prefix: &[u8]) -> (r: Vec<(Vec<u8>, Vec<u8>)>)
        requires
            self.wf(),
        ensures
            forall|i: int|
                0 <= i < r@.len() ==> prefix@.is_prefix_of((#[trigger] r@[i]).0@)
                    && self@.contains_key(r@[i].0@) && self@[r@[i].0@] == r@[i].1@,
            forall|k: Seq<u8>|
                prefix@.is_prefix_of(k) && #[trigger] self@.contains_key(k) ==> exists|i: int|
                    0 <= i < r@.len() && (#[trigger] r@[i]).0@ == k,
            forall|i: int, j: int|
                0 <= i < j < r@.len() ==> (#[trigger] r@[i]).0@ != (#[trigger] r@[j]).0@,
    {
        let mut r: Vec<(Vec<u8>, Vec<u8>)> = Vec::new();
        let ghost mut idx: Seq<int> = Seq::empty();
        let mut i: usize = 0;
        while i < self.keys.len()
            invariant
                self.wf(),
                i <= self.keys@.len(),
                idx.len() == r@.len(),
                forall|m: int| 0 <= m < idx.len() ==> 0 <= #[trigger] idx[m] < i && r@[m].0@
                    == self.keys@[idx[m]]@,
                forall|m: int, n: int| 0 <= m < n < idx.len() ==> #[trigger] idx[m] < #[trigger] idx[n],
                forall|m: int|
                    0 <= m < r@.len() ==> prefix@.is_prefix_of((#[trigger] r@[m]).0@)
                        && self@.contains_key(r@[m].0@) && self@[r@[m].0@] == r@[m].1@,
                forall|j: int|
                    0 <= j < i && prefix@.is_prefix_of(self.keys@[j]@) && (#[trigger] self.vals@[j]) is Some
                        ==> exists|m: int| 0 <= m < r@.len() && (#[trigger] r@[m]).0@ == self.keys@[j]@,
            decreases self.keys@.len() - i,
        {
            proof {
                self.lemma_find(i as int);
            }
            let ghost old_r = r@;
            if starts_with(self.keys[i].as_slice(), prefix) {
                match &self.vals[i] {
                    Some(v) => {
                        let k = self.keys[i].clone();
                        let v2 = v.clone();
                        assert(k@ == self.keys@[i as int]@);
                        r.push((k, v2));
                        proof {
                            idx = idx.push(i as int);
                        }
                    },
                    None => {},
                }
            }
            proof {
                assert forall|j: int|
                    0 <= j < i + 1 && prefix@.is_prefix_of(self.keys@[j]@) && (#[trigger] self.vals@[j]) is Some
                        implies exists|m: int| 0 <= m < r@.len() && (#[trigger] r@[m]).0@ == self.keys@[j]@ by {
                    if j < i {
                        let m = choose|m: int| 0 <= m < old_r.len() && (#[trigger] old_r[m]).0@ == self.keys@[j]@;
                        assert(r@[m] == old_r[m]);
                    } else {
                        assert(r@[r@.len() - 1].0@ == self.keys@[j]@);
                    }
                }
            }
            i = i + 1;
        }
        proof {
            assert forall|k: Seq<u8>|
                prefix@.is_prefix_of(k) && #[trigger] self@.contains_key(k) implies exists|m: int|
                    0 <= m < r@.len() && (#[trigger] r@[m]).0@ == k by {
                let j = self.find(k);
                assert(self.vals@[j] is Some);
            }
            assert forall|m: int, n: int| 0 <= m < n < r@.len() implies (#[trigger] r@[m]).0@ != (
            #[trigger] r@[n]).0@ by {
                assert(idx[m] < idx[n]);
            }
        }
        r
    }
}

/// Whether `key` starts with `prefix`.
pub fn starts_with(key: &[u8], prefix: &[u8]) -> (r: bool)
    ensures
        r == prefix@.is_prefix_of(key@),
{
    if prefix.len() > key.len() {
        return false;
    }
    let mut i: usize = 0;
    while i < prefix.len()
        invariant
            prefix@.len() <= key@.len(),
            i <= prefix@.len(),
            forall|j: int| 0 <= j < i ==> prefix@[j] == key@[j],
        decreases prefix@.len() - i,
    {
        if prefix[i] != key[i] {
            return false;
        }
        i = i + 1;
    }
    assert(prefix@ =~= key@.subrange(0, prefix@.len() as int));
    true
}

} // verus!
