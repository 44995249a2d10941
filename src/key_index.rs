//! A set of distinct byte strings, each at a fixed position, found through
//! buckets keyed by a 64-bit hash of the bytes.
use vstd::prelude::*;
use std::collections::hash_map::DefaultHasher;
use std::collections::HashMap;
use std::hash::Hasher;
use vstd::std_specs::hash::DefaultHasherAdditionalSpecFns;
use crate::tokenizer::{byte_strings, bytes_equal};

verus! {

broadcast use vstd::std_specs::hash::group_hash_axioms;

/// The bucket of a byte string.
pub open spec fn fingerprint(key: Seq<u8>) -> u64 {
    DefaultHasher::spec_finish(seq![key])
}

fn fingerprint_of(key: &[u8]) -> (r: u64)
    ensures
        r == fingerprint(key@),
{
    let mut h = DefaultHasher::new();
    h.write(key);
    proof {
        assert(h@ =~= seq![key@]);
    }
    h.finish()
}

/// Distinct byte strings in order of insertion.
pub struct KeyIndex {
    keys: Vec<Vec<u8>>,
    buckets: HashMap<u64, Vec<usize>>,
}

impl KeyIndex {
    /// The byte strings, in order of insertion.
    pub closed spec fn view_keys(&self) -> Seq<Seq<u8>> {
        byte_strings(self.keys@)
    }

    pub closed spec fn wf(&self) -> bool {
        &&& byte_strings(self.keys@).no_duplicates()
        &&& forall|e: int|
            0 <= e < self.keys@.len() ==> self.buckets@.contains_key(fingerprint(#[trigger] self.keys@[e]@))
                && self.buckets@[fingerprint(self.keys@[e]@)]@.contains(e as usize)
        &&& forall|h: u64, j: int|
            #![trigger self.buckets@[h]@[j]]
            self.buckets@.contains_key(h) && 0 <= j < self.buckets@[h]@.len() ==> self.buckets@[h]@[j]
                < self.keys@.len()
    }

    /// The byte strings are distinct.
    pub proof fn lemma_distinct(&self)
        requires
            self.wf(),
        ensures
            self.view_keys().no_duplicates(),
    {
    }

    pub fn new() -> (r: Self)
        ensures
            r.wf(),
            r.view_keys() == Seq::<Seq<u8>>::empty(),
    {
        let r = KeyIndex { keys: Vec::new(), buckets: HashMap::new() };
        assert(r.view_keys() =~= Seq::<Seq<u8>>::empty());
        r
    }

    /// The position of `key`, if it is held.
    pub fn position(&self, key: &[u8]) -> (r: Option<usize>)
        requires
            self.wf(),
        ensures
            r matches Some(e) ==> e < self.view_keys().len() && self.view_keys()[e as int] == key@,
            r is None ==> !self.view_keys().contains(key@),
    {
        let h = fingerprint_of(key);
        let total = self.keys.len();
        match self.buckets.get(&h) {
            None => {
                proof {
                    if self.view_keys().contains(key@) {
                        let e = choose|e: int| 0 <= e < self.view_keys().len() && self.view_keys()[e] == key@;
                        assert(self.view_keys()[e] == self.keys@[e]@);
                        assert(self.buckets@.contains_key(fingerprint(self.keys@[e]@)));
                    }
                }
                None
            },
            Some(list) => {
                for j in 0..list.len()
                    invariant
                        self.wf(),
                        self.buckets@.contains_key(h),
                        *list == self.buckets@[h],
                        h == fingerprint(key@),
                        total == self.keys@.len(),
                        forall|jj: int| 0 <= jj < j ==> self.keys@[#[trigger] list@[jj] as int]@ != key@,
                {
                    let e = list[j];
                    if bytes_equal(self.keys[e].as_slice(), key) {
                        return Some(e);
                    }
                }
                proof {
                    if self.view_keys().contains(key@) {
                        let e = choose|e: int| 0 <= e < self.view_keys().len() && self.view_keys()[e] == key@;
                        assert(self.view_keys()[e] == self.keys@[e]@);
                        assert(self.buckets@[fingerprint(self.keys@[e]@)]@.contains(e as usize));
                        assert(list@.contains(e as usize));
                        let jj = choose|jj: int| 0 <= jj < list@.len() && list@[jj] == e as usize;
                        assert(list@[jj] as int == e);
                        assert(self.keys@[list@[jj] as int]@ != key@);
                    }
                }
                None
            },
        }
    }

    /// Adds a byte string that is not held yet, at the next position.
    pub fn push(&mut self, key: Vec<u8>) -> (e: usize)
        requires
            old(self).wf(),
            !old(self).view_keys().contains(key@),
        ensures
            final(self).wf(),
            final(self).view_keys() == old(self).view_keys().push(key@),
            e == old(self).view_keys().len(),
    {
        let h = fingerprint_of(key.as_slice());
        let e = self.keys.len();
        let mut list: Vec<usize> = match self.buckets.get(&h) {
            Some(l) => {
                let mut c: Vec<usize> = Vec::with_capacity(l.len());
                for j in 0..l.len()
                    invariant
                        c@ == l@.take(j as int),
                {
                    c.push(l[j]);
                    assert(c@ =~= l@.take(j + 1));
                }
                assert(c@ =~= l@);
                c
            },
            None => Vec::new(),
        };
        let ghost old_list = list@;
        list.push(e);
        let ghost keys0 = self.keys@;
        let ghost buckets0 = self.buckets@;
        self.keys.push(key);
        self.buckets.insert(h, list);
        proof {
            assert(byte_strings(self.keys@) =~= byte_strings(keys0).push(self.keys@[e as int]@));
            assert(self.view_keys() =~= old(self).view_keys().push(self.keys@[e as int]@));
            assert forall|e2: int| 0 <= e2 < self.keys@.len() implies self.buckets@.contains_key(
                fingerprint(#[trigger] self.keys@[e2]@),
            ) && self.buckets@[fingerprint(self.keys@[e2]@)]@.contains(e2 as usize) by {
                if e2 < e {
                    assert(self.keys@[e2] == keys0[e2]);
                    if fingerprint(keys0[e2]@) == h {
                        let jj = choose|jj: int| 0 <= jj < old_list.len() && old_list[jj] == e2 as usize;
                        assert(list@[jj] == e2 as usize);
                    }
                } else {
                    assert(list@[list@.len() - 1] == e);
                }
            }
            assert forall|h2: u64, j: int|
                #![trigger self.buckets@[h2]@[j]]
                self.buckets@.contains_key(h2) && 0 <= j < self.buckets@[h2]@.len() implies self.buckets@[h2]@[j]
                    < self.keys@.len() by {
                if h2 == h && j < old_list.len() {
                    assert(buckets0[h]@[j] == old_list[j]);
                }
            }
            assert forall|a: int, b: int| 0 <= a < b < self.view_keys().len() implies self.view_keys()[a]
                != self.view_keys()[b] by {
                if b == e {
                    assert(old(self).view_keys()[a] == self.view_keys()[a]);
                    assert(old(self).view_keys().contains(self.view_keys()[a]));
                } else {
                    assert(old(self).view_keys().no_duplicates());
                }
            }
        }
        e
    }

    /// The byte strings, in order of insertion.
    pub fn into_keys(self) -> (r: Vec<Vec<u8>>)
        requires
            self.wf(),
        ensures
            byte_strings(r@) == self.view_keys(),
            byte_strings(r@).no_duplicates(),
    {
        self.keys
    }
}

} // verus!
