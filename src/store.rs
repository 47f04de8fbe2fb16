//! The expiring key-value store.
//!
//! Times are readings of a monotonic clock in milliseconds; an entry with a
//! time-to-live is logically absent once `now >= insert_time + ttl`.
use vstd::prelude::*;

verus! {

/// A stored value, the time it was stored, and its optional time-to-live.
#[derive(Clone, Debug)]
pub struct ValueWithExpiry {
    pub value: Vec<u8>,
    pub expiry: Option<u64>,
    pub insert_time: u64,
}

pub struct EntryModel {
    pub value: Seq<u8>,
    pub expiry: Option<u64>,
    pub insert_time: u64,
}

impl View for ValueWithExpiry {
    type V = EntryModel;

    open spec fn view(&self) -> EntryModel {
        EntryModel { value: self.value@, expiry: self.expiry, insert_time: self.insert_time }
    }
}

/// An entry with a time-to-live has expired once that much time has passed
/// since it was stored; one without never expires.
pub open spec fn is_expired(e: EntryModel, now: u64) -> bool {
    match e.expiry {
        Some(ttl) => now >= e.insert_time + ttl,
        None => false,
    }
}

impl ValueWithExpiry {
    pub fn has_expired(&self, now: u64) -> (r: bool)
        ensures
            r == is_expired(self@, now),
    {
        match self.expiry {
            Some(ttl) => now >= self.insert_time && now - self.insert_time >= ttl,
            None => false,
        }
    }
}

pub fn bytes_eq(a: &Vec<u8>, b: &Vec<u8>) -> (r: bool)
    ensures
        r == (a@ == b@),
{
    if a.len() != b.len() {
        return false;
    }
    let mut i: usize = 0;
    while i < a.len()
        invariant
            a@.len() == b@.len(),
            i <= a@.len(),
            forall|j: int| 0 <= j < i ==> a@[j] == b@[j],
        decreases a.len() - i,
    {
        if a[i] != b[i] {
            return false;
        }
        i = i + 1;
    }
    assert(a@ =~= b@);
    true
}

/// Map from key to entry. Keys are unique; entries keep the order in which
/// their keys were first stored.
pub struct Store {
    entries: Vec<(Vec<u8>, ValueWithExpiry)>,
    model: Ghost<Map<Seq<u8>, EntryModel>>,
}

impl View for Store {
    type V = Map<Seq<u8>, EntryModel>;

    closed spec fn view(&self) -> Map<Seq<u8>, EntryModel> {
        self.model@
    }
}

impl Store {
    spec fn key_at(&self, i: int) -> Seq<u8> {
        self.entries@[i].0@
    }

    /// The entries and the map they stand for agree, and keys are unique.
    pub closed spec fn wf(&self) -> bool {
        &&& forall|i: int|
            0 <= i < self.entries@.len() ==> #[trigger] self.model@.contains_key(self.key_at(i))
                && self.model@[self.key_at(i)] == self.entries@[i].1@
        &&& forall|k: Seq<u8>|
            #[trigger] self.model@.contains_key(k) ==> exists|i: int|
                0 <= i < self.entries@.len() && self.key_at(i) == k
        &&& forall|i: int, j: int|
            0 <= i < j < self.entries@.len() ==> self.key_at(i) != self.key_at(j)
    }

    pub fn new() -> (r: Store)
        ensures
            r.wf(),
            r@ == Map::<Seq<u8>, EntryModel>::empty(),
    {
        Store { entries: Vec::new(), model: Ghost(Map::empty()) }
    }

    fn find(&self, key: &Vec<u8>) -> (r: Option<usize>)
        requires
            self.wf(),
        ensures
            r matches Some(i) ==> i < self.entries@.len() && self.key_at(i as int) == key@,
            r is None ==> !self@.contains_key(key@),
    {
        let mut i: usize = 0;
        while i < self.entries.len()
            invariant
                self.wf(),
                i <= self.entries@.len(),
                forall|j: int| 0 <= j < i ==> self.key_at(j) != key@,
            decreases self.entries.len() - i,
        {
            if bytes_eq(&self.entries[i].0, key) {
                return Some(i);
            }
            i = i + 1;
        }
        None
    }

    /// The entry stored under `key`, expired or not.
    pub fn get(&self, key: &Vec<u8>) -> (r: Option<&ValueWithExpiry>)
        requires
            self.wf(),
        ensures
            r is None <==> !self@.contains_key(key@),
            r matches Some(v) ==> v@ == self@[key@],
    {
        match self.find(key) {
            Some(i) => {
                assert(self.model@.contains_key(self.key_at(i as int)));
                Some(&self.entries[i].1)
            },
            None => None,
        }
    }

    /// Stores `value` under `key`, replacing what was there.
    pub fn set(&mut self, key: Vec<u8>, value: ValueWithExpiry)
        requires
            old(self).wf(),
        ensures
            final(self).wf(),
            final(self)@ == old(self)@.insert(key@, value@),
    {
        let ghost k = key@;
        let ghost v = value@;
        match self.find(&key) {
            Some(i) => {
                self.entries.set(i, (key, value));
                self.model = Ghost(self.model@.insert(k, v));
                assert forall|j: int| 0 <= j < self.entries@.len() implies #[trigger]
                    self.model@.contains_key(self.key_at(j)) && self.model@[self.key_at(j)]
                        == self.entries@[j].1@ by {
                    if j != i {
                        assert(old(self).key_at(j) != k);
                    }
                }
                assert forall|kk: Seq<u8>| #[trigger]
                    self.model@.contains_key(kk) implies exists|j: int|
                        0 <= j < self.entries@.len() && self.key_at(j) == kk by {
                    if kk != k {
                        let j = choose|j: int|
                            0 <= j < old(self).entries@.len() && old(self).key_at(j) == kk;
                        assert(self.key_at(j) == kk);
                    } else {
                        assert(self.key_at(i as int) == kk);
                    }
                }
                assert forall|a: int, b: int|
                    0 <= a < b < self.entries@.len() implies self.key_at(a) != self.key_at(b) by {
                    assert(self.key_at(a) == old(self).key_at(a));
                    assert(self.key_at(b) == old(self).key_at(b));
                }
            },
            None => {
                let ghost n = self.entries@.len();
                self.entries.push((key, value));
                self.model = Ghost(self.model@.insert(k, v));
                assert(self.key_at(n as int) == k);
                assert forall|j: int| 0 <= j < self.entries@.len() implies #[trigger]
                    self.model@.contains_key(self.key_at(j)) && self.model@[self.key_at(j)]
                        == self.entries@[j].1@ by {
                    if j < n {
                        assert(old(self).model@.contains_key(old(self).key_at(j)));
                        assert(self.key_at(j) == old(self).key_at(j));
                    }
                }
                assert forall|kk: Seq<u8>| #[trigger]
                    self.model@.contains_key(kk) implies exists|j: int|
                        0 <= j < self.entries@.len() && self.key_at(j) == kk by {
                    if kk != k {
                        let j = choose|j: int|
                            0 <= j < old(self).entries@.len() && old(self).key_at(j) == kk;
                        assert(self.key_at(j) == kk);
                    }
                }
                assert forall|a: int, b: int|
                    0 <= a < b < self.entries@.len() implies self.key_at(a) != self.key_at(b) by {
                    assert(self.key_at(a) == old(self).key_at(a));
                    if b == n {
                        assert(old(self).model@.contains_key(old(self).key_at(a)));
                    } else {
                        assert(self.key_at(b) == old(self).key_at(b));
                    }
                }
            },
        }
        assert(self.model@ =~= old(self)@.insert(k, v));
    }

    /// Removes the entry stored under `key`, if any.
    pub fn remove(&mut self, key: &Vec<u8>)
        requires
            old(self).wf(),
        ensures
            final(self).wf(),
            final(self)@ == old(self)@.remove(key@),
    {
        match self.find(key) {
            Some(i) => {
                self.entries.remove(i);
                self.model = Ghost(self.model@.remove(key@));
                assert forall|j: int| 0 <= j < self.entries@.len() implies #[trigger]
                    self.model@.contains_key(self.key_at(j)) && self.model@[self.key_at(j)]
                        == self.entries@[j].1@ by {
                    if j < i {
                        assert(self.key_at(j) == old(self).key_at(j));
                        assert(old(self).model@.contains_key(old(self).key_at(j)));
                    } else {
                        assert(self.key_at(j) == old(self).key_at(j + 1));
                        assert(old(self).model@.contains_key(old(self).key_at(j + 1)));
                    }
                }
                assert forall|kk: Seq<u8>| #[trigger]
                    self.model@.contains_key(kk) implies exists|j: int|
                        0 <= j < self.entries@.len() && self.key_at(j) == kk by {
                    let j = choose|j: int|
                        0 <= j < old(self).entries@.len() && old(self).key_at(j) == kk;
                    if j < i {
                        assert(self.key_at(j) == kk);
                    } else {
                        assert(self.key_at(j - 1) == kk);
                    }
                }
                assert forall|a: int, b: int|
                    0 <= a < b < self.entries@.len() implies self.key_at(a) != self.key_at(b) by {
                    let oa = if a < i { a } else { a + 1 };
                    let ob = if b < i { b } else { b + 1 };
                    assert(self.key_at(a) == old(self).key_at(oa));
                    assert(self.key_at(b) == old(self).key_at(ob));
                }
            },
            None => {
                assert(self.model@ =~= old(self)@.remove(key@));
            },
        }
    }
}

} // verus!
