//! A map keyed by byte strings, kept as a list of entries with distinct keys.

use std::sync::Arc;
use vstd::prelude::*;

verus! {

/// Byte-string equality.
pub fn bytes_eq(a: &[u8], b: &[u8]) -> (r: bool)
    ensures
        r == (a@ == b@),
{
    if a.len() != b.len() {
        return false;
    }
    let mut i: usize = 0;
    while i < a.len()
        invariant
            i <= a@.len() == b@.len(),
            forall|j: int| 0 <= j < i ==> a@[j] == b@[j],
        decreases a@.len() - i,
    {
        if a[i] != b[i] {
            return false;
        }
        i = i + 1;
    }
    assert(a@ =~= b@);
    true
}

/// Relies on `Arc::clone`: the new handle points to the same bytes.
#[verifier::external_body]
pub(crate) fn share(a: &Arc<Vec<u8>>) -> (r: Arc<Vec<u8>>)
    ensures
        r@ == a@,
{
    a.clone()
}

/// One key and its value.
pub struct Entry<V> {
    pub key: Arc<Vec<u8>>,
    pub value: V,
}

/// A map from byte strings to values, kept as a list of entries with
/// distinct keys.
pub struct Table<V: View> {
    entries: Vec<Entry<V>>,
    model: Ghost<Map<Seq<u8>, V::V>>,
}

impl<V: View> Table<V> {
    /// The map that the table holds.
    pub closed spec fn view(&self) -> Map<Seq<u8>, V::V> {
        self.model@
    }

    pub closed spec fn wf(&self) -> bool {
        &&& forall|i: int|
            0 <= i < self.entries@.len() ==> self.model@.contains_key(
                #[trigger] self.entries@[i].key@,
            ) && self.model@[self.entries@[i].key@] == self.entries@[i].value@
        &&& forall|k: Seq<u8>|
            #![trigger self.model@.contains_key(k)]
            self.model@.contains_key(k) ==> exists|i: int|
                0 <= i < self.entries@.len() && #[trigger] self.entries@[i].key@ == k
        &&& forall|i: int, j: int|
            0 <= i < self.entries@.len() && 0 <= j < self.entries@.len() && #[trigger] self.entries@[i].key@
                == #[trigger] self.entries@[j].key@ ==> i == j
    }

    pub fn new() -> (r: Self)
        ensures
            r.wf(),
            r@ == Map::<Seq<u8>, V::V>::empty(),
    {
        Table { entries: Vec::new(), model: Ghost(Map::empty()) }
    }

    fn find(&self, k: &[u8]) -> (r: Option<usize>)
        requires
            self.wf(),
        ensures
            match r {
                Some(i) => i < self.entries@.len() && self.entries@[i as int].key@ == k@
                    && self@.contains_key(k@),
                None => !self@.contains_key(k@),
            },
    {
        let mut i: usize = 0;
        while i < self.entries.len()
            invariant
                self.wf(),
                i <= self.entries@.len(),
                forall|j: int| 0 <= j < i ==> self.entries@[j].key@ != k@,
            decreases self.entries@.len() - i,
        {
            if bytes_eq(self.entries[i].key.as_slice(), k) {
                return Some(i);
            }
            i = i + 1;
        }
        None
    }

    /// The value under `k`, if any.
    pub fn get(&self, k: &[u8]) -> (r: Option<&V>)
        requires
            self.wf(),
        ensures
            match r {
                Some(v) => self@.contains_key(k@) && self@[k@] == v@,
                None => !self@.contains_key(k@),
            },
    {
        match self.find(k) {
            Some(i) => Some(&self.entries[i].value),
            None => None,
        }
    }

    /// Takes the entry under `k` out of the table.
    pub fn remove(&mut self, k: &[u8]) -> (r: Option<Entry<V>>)
        requires
            old(self).wf(),
        ensures
            final(self).wf(),
            final(self)@ == old(self)@.remove(k@),
            match r {
                Some(e) => old(self)@.contains_key(k@) && e.key@ == k@ && e.value@ == old(self)@[k@],
                None => !old(self)@.contains_key(k@),
            },
    {
        match self.find(k) {
            Some(i) => {
                let ghost before = self.entries@;
                let e = self.entries.remove(i);
                self.model = Ghost(self.model@.remove(k@));
                proof {
                    assert forall|j: int| 0 <= j < self.entries@.len() implies self.model@.contains_key(
                        #[trigger] self.entries@[j].key@,
                    ) && self.model@[self.entries@[j].key@] == self.entries@[j].value@ by {
                        let jj = if j < i { j } else { j + 1 };
                        assert(before[jj] == self.entries@[j]);
                    }
                    assert forall|kk: Seq<u8>| #[trigger] self.model@.contains_key(kk) implies exists|j: int|
                        0 <= j < self.entries@.len() && #[trigger] self.entries@[j].key@ == kk by {
                        let jj = choose|jj: int| 0 <= jj < before.len() && #[trigger] before[jj].key@ == kk;
                        let j = if jj < i { jj } else { jj - 1 };
                        assert(self.entries@[j] == before[jj]);
                    }
                    assert forall|a: int, b: int|
                        0 <= a < self.entries@.len() && 0 <= b < self.entries@.len() && #[trigger] self.entries@[a].key@
                            == #[trigger] self.entries@[b].key@ implies a == b by {
                        let aa = if a < i { a } else { a + 1 };
                        let bb = if b < i { b } else { b + 1 };
                        assert(before[aa] == self.entries@[a]);
                        assert(before[bb] == self.entries@[b]);
                    }
                }
                Some(e)
            },
            None => {
                assert(self.model@.remove(k@) =~= self.model@);
                None
            },
        }
    }

    /// Puts `v` under `k`, in place of any value that was there.
    pub fn insert(&mut self, k: Arc<Vec<u8>>, v: V)
        requires
            old(self).wf(),
        ensures
            final(self).wf(),
            final(self)@ == old(self)@.insert(k@, v@),
    {
        let _ = self.remove(k.as_slice());
        let ghost before = self.entries@;
        let ghost km = k@;
        let ghost vm = v@;
        self.entries.push(Entry { key: k, value: v });
        self.model = Ghost(self.model@.insert(km, vm));
        proof {
            let n = before.len();
            assert(self.entries@[n as int].key@ == km);
            assert forall|j: int| 0 <= j < self.entries@.len() implies self.model@.contains_key(
                #[trigger] self.entries@[j].key@,
            ) && self.model@[self.entries@[j].key@] == self.entries@[j].value@ by {
                if j < n {
                    assert(before[j] == self.entries@[j]);
                }
            }
            assert forall|kk: Seq<u8>| #[trigger] self.model@.contains_key(kk) implies exists|j: int|
                0 <= j < self.entries@.len() && #[trigger] self.entries@[j].key@ == kk by {
                if kk != km {
                    let jj = choose|jj: int| 0 <= jj < before.len() && #[trigger] before[jj].key@ == kk;
                    assert(self.entries@[jj] == before[jj]);
                }
            }
            assert forall|a: int, b: int|
                0 <= a < self.entries@.len() && 0 <= b < self.entries@.len() && #[trigger] self.entries@[a].key@
                    == #[trigger] self.entries@[b].key@ implies a == b by {
                if a < n {
                    assert(before[a] == self.entries@[a]);
                }
                if b < n {
                    assert(before[b] == self.entries@[b]);
                }
            }
        }
    }
}

} // verus!
