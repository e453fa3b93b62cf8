use vstd::prelude::*;

verus! {

/// Whether `a` and `b` hold the same bytes.
pub fn bytes_eq(a: &[u8], b: &[u8]) -> (r: bool)
    ensures
        r == (a@ == b@),
{
    if a.len() != b.len() {
        return false;
    }
    let mut i: usize = 0;
    while i < a.len()
        invariant
            a@.len() == b@.len(),
            i <= a@.len(),
            forall|j: int| 0 <= j < i ==> a@[j] == b@[j],
        decreases a@.len() - i,
    {
        if a[i] != b[i] {
            return false;
        }
        i = i + 1;
    }
    assert(a@ =~= b@);
    true
}

/// The in-memory index: for each key, the offset of its latest live record.
pub struct Index {
    slots: Vec<(Vec<u8>, u64)>,
    map: Ghost<Map<Seq<u8>, u64>>,
}

impl View for Index {
    type V = Map<Seq<u8>, u64>;

    closed spec fn view(&self) -> Map<Seq<u8>, u64> {
        self.map@
    }
}

impl Index {
    /// Each slot is one entry of the map, each key of the map has a slot, and
    /// no key has two.
    pub closed spec fn wf(&self) -> bool {
        &&& forall|i: int|
            0 <= i < self.slots@.len() ==> #[trigger] self.map@.contains_key(self.slots@[i].0@)
                && self.map@[self.slots@[i].0@] == self.slots@[i].1
        &&& forall|k: Seq<u8>|
            #[trigger] self.map@.contains_key(k) ==> exists|i: int|
                0 <= i < self.slots@.len() && #[trigger] self.slots@[i].0@ == k
        &&& forall|i: int, j: int|
            0 <= i < self.slots@.len() && 0 <= j < self.slots@.len() && i != j
                ==> #[trigger] self.slots@[i].0@ != #[trigger] self.slots@[j].0@
    }

    /// An empty index.
    pub fn new() -> (r: Index)
        ensures
            r.wf(),
            r@ == Map::<Seq<u8>, u64>::empty(),
    {
        Index { slots: Vec::new(), map: Ghost(Map::empty()) }
    }

    /// The slot that holds `key`, if any.
    fn find(&self, key: &[u8]) -> (r: Option<usize>)
        requires
            self.wf(),
        ensures
            match r {
                Some(i) => i < self.slots@.len() && self.slots@[i as int].0@ == key@,
                None => !self@.contains_key(key@),
            },
    {
        let mut i: usize = 0;
        while i < self.slots.len()
            invariant
                i <= self.slots@.len(),
                forall|j: int| 0 <= j < i ==> self.slots@[j].0@ != key@,
            decreases self.slots@.len() - i,
        {
            if bytes_eq(self.slots[i].0.as_slice(), key) {
                return Some(i);
            }
            i = i + 1;
        }
        None
    }

    /// The offset recorded for `key`, if any.
    pub fn get(&self, key: &[u8]) -> (r: Option<u64>)
        requires
            self.wf(),
        ensures
            r == (if self@.contains_key(key@) {
                Some(self@[key@])
            } else {
                None::<u64>
            }),
    {
        match self.find(key) {
            Some(i) => Some(self.slots[i].1),
            None => None,
        }
    }

    /// Records `offset` for `key`, replacing any earlier offset.
    pub fn set(&mut self, key: Vec<u8>, offset: u64)
        requires
            old(self).wf(),
        ensures
            final(self).wf(),
            final(self)@ == old(self)@.insert(key@, offset),
    {
        let ghost k = key@;
        let ghost old_slots = self.slots@;
        let found = self.find(key.as_slice());
        let ghost at: int;
        match found {
            Some(i) => {
                self.slots.set(i, (key, offset));
                proof {
                    at = i as int;
                }
            },
            None => {
                self.slots.push((key, offset));
                proof {
                    at = old_slots.len() as int;
                }
            },
        }
        self.map = Ghost(self.map@.insert(k, offset));
        assert(self.slots@[at].0@ == k);
        assert forall|a: int| 0 <= a < self.slots@.len() && a != at implies self.slots@[a]
            == old_slots[a] && old_slots[a].0@ != k by {
            if found is None {
                assert(old_slots[a].0@ != k);
            }
        }
        assert forall|a: int|
            0 <= a < self.slots@.len() implies #[trigger] self.map@.contains_key(self.slots@[a].0@)
            && self.map@[self.slots@[a].0@] == self.slots@[a].1 by {
            if a != at {
                assert(self.slots@[a] == old_slots[a]);
            }
        }
        assert forall|q: Seq<u8>| #[trigger] self.map@.contains_key(q) implies exists|j: int|
            0 <= j < self.slots@.len() && #[trigger] self.slots@[j].0@ == q by {
            if q != k {
                let j = choose|j: int| 0 <= j < old_slots.len() && #[trigger] old_slots[j].0@ == q;
                assert(j != at);
                assert(self.slots@[j].0@ == q);
            }
        }
        assert forall|a: int, b: int|
            0 <= a < self.slots@.len() && 0 <= b < self.slots@.len() && a != b implies
            #[trigger] self.slots@[a].0@ != #[trigger] self.slots@[b].0@ by {
            if a != at && b != at {
                assert(self.slots@[a] == old_slots[a]);
                assert(self.slots@[b] == old_slots[b]);
            }
        }
    }

    /// Forgets `key`.
    pub fn remove(&mut self, key: &[u8])
        requires
            old(self).wf(),
        ensures
            final(self).wf(),
            final(self)@ == old(self)@.remove(key@),
    {
        match self.find(key) {
            Some(i) => {
                let ghost old_slots = self.slots@;
                let ghost last = (old_slots.len() - 1) as int;
                let _ = self.slots.swap_remove(i);
                self.map = Ghost(self.map@.remove(key@));
                assert forall|q: Seq<u8>| #[trigger] self.map@.contains_key(q) implies exists|j: int|
                    0 <= j < self.slots@.len() && #[trigger] self.slots@[j].0@ == q by {
                    let j = choose|j: int| 0 <= j < old_slots.len() && #[trigger] old_slots[j].0@ == q;
                    assert(j != i);
                    if j == last {
                        assert(self.slots@[i as int].0@ == q);
                    } else {
                        assert(self.slots@[j].0@ == q);
                    }
                }
                assert forall|a: int|
                    0 <= a < self.slots@.len() implies #[trigger] self.map@.contains_key(
                    self.slots@[a].0@,
                ) && self.map@[self.slots@[a].0@] == self.slots@[a].1 by {
                    let oa = if a == i { last } else { a };
                    assert(self.slots@[a] == old_slots[oa]);
                    assert(oa != i);
                    assert(old_slots[oa].0@ != old_slots[i as int].0@);
                    assert(old(self).map@.contains_key(old_slots[oa].0@));
                }
                assert forall|a: int, b: int|
                    0 <= a < self.slots@.len() && 0 <= b < self.slots@.len() && a != b implies
                    #[trigger] self.slots@[a].0@ != #[trigger] self.slots@[b].0@ by {
                    let oa = if a == i { last } else { a };
                    let ob = if b == i { last } else { b };
                    assert(self.slots@[a] == old_slots[oa]);
                    assert(self.slots@[b] == old_slots[ob]);
                }
            },
            None => {
                assert(self.map@.remove(key@) =~= self.map@);
            },
        }
    }
}

} // verus!
