//! Plain (unauthenticated) typed indexes over a raw access: key-value maps,
//! single-value entries, key sets, value sets and appendable lists. Each is a
//! stateless handle over one address; the data lives in the access.

use vstd::prelude::*;

use crate::access::{Fork, RawAccess};
use crate::address::{
    be64, be64_val, index_map, lemma_be64_injective, lemma_be64_roundtrip, lemma_index_map_insert,
    lemma_index_map_remove, u64_from_be, u64_to_be, IndexAddress,
};
use crate::bytes::copy_bytes;
use crate::hash::{hash_of, sha256};
use crate::kv::{keys_sorted, kmap, pair_view};

verus! {

/// An unauthenticated key-value index.
pub struct MapIndex {
    pub addr: IndexAddress,
}

impl MapIndex {
    /// Representation invariant.
    pub open spec fn wf(self) -> bool {
        self.addr.wf()
    }

    /// What this index holds in a given raw view.
    pub open spec fn map_of(self, store: Map<Seq<u8>, Seq<u8>>) -> Map<Seq<u8>, Seq<u8>> {
        index_map(store, self.addr.prefix())
    }

    /// A handle at an address.
    pub fn new(addr: IndexAddress) -> (r: MapIndex)
        ensures
            r.addr == addr,
    {
        MapIndex { addr }
    }

    /// Look a key up; `Some` exactly when present.
    pub fn get<A: RawAccess>(&self, access: &A, key: &Vec<u8>) -> (r: Option<Vec<u8>>)
        requires
            access.inv(),
            self.wf(),
        ensures
            match r {
                Some(v) => self.map_of(access.view_map()).contains_key(key@) && v@ == self.map_of(
                    access.view_map(),
                )[key@],
                None => !self.map_of(access.view_map()).contains_key(key@),
            },
    {
        let rk = self.addr.resolved_key(key);
        match access.raw_get(&rk) {
            Some(v) => Some(copy_bytes(v)),
            None => None,
        }
    }

    /// Whether a key is present.
    pub fn contains<A: RawAccess>(&self, access: &A, key: &Vec<u8>) -> (r: bool)
        requires
            access.inv(),
            self.wf(),
        ensures
            r == self.map_of(access.view_map()).contains_key(key@),
    {
        match self.get(access, key) {
            Some(_) => true,
            None => false,
        }
    }

    /// Write a value under a key.
    pub fn put(&self, fork: &mut Fork, key: &Vec<u8>, value: Vec<u8>)
        requires
            old(fork).wf(),
            self.wf(),
        ensures
            final(fork).wf(),
            final(fork).base_map() == old(fork).base_map(),
            final(fork)@ == old(fork)@.insert(self.addr.prefix() + key@, value@),
            self.map_of(final(fork)@) == self.map_of(old(fork)@).insert(key@, value@),
    {
        let rk = self.addr.resolved_key(key);
        fork.put(rk, value);
        proof {
            lemma_index_map_insert(old(fork)@, self.addr.prefix(), key@, value@);
        }
    }

    /// Delete a key.
    pub fn remove(&self, fork: &mut Fork, key: &Vec<u8>)
        requires
            old(fork).wf(),
            self.wf(),
        ensures
            final(fork).wf(),
            final(fork).base_map() == old(fork).base_map(),
            final(fork)@ == old(fork)@.remove(self.addr.prefix() + key@),
            self.map_of(final(fork)@) == self.map_of(old(fork)@).remove(key@),
    {
        let rk = self.addr.resolved_key(key);
        fork.remove(&rk);
        proof {
            lemma_index_map_remove(old(fork)@, self.addr.prefix(), key@);
        }
    }

    /// All entries of the index, in ascending key order.
    pub fn entries<A: RawAccess>(&self, access: &A) -> (r: Vec<(Vec<u8>, Vec<u8>)>)
        requires
            access.inv(),
            self.wf(),
        ensures
            keys_sorted(pair_view(r@)),
            kmap(pair_view(r@)) == self.map_of(access.view_map()),
    {
        crate::address::index_entries(access, &self.addr)
    }
}

/// A single optional value at one address.
pub struct Entry {
    pub addr: IndexAddress,
}

impl Entry {
    /// Representation invariant.
    pub open spec fn wf(self) -> bool {
        self.addr.wf()
    }

    /// What this entry holds in a given raw view.
    pub open spec fn value_of(self, store: Map<Seq<u8>, Seq<u8>>) -> Option<Seq<u8>> {
        let im = index_map(store, self.addr.prefix());
        if im.contains_key(Seq::<u8>::empty()) {
            Some(im[Seq::<u8>::empty()])
        } else {
            None
        }
    }

    /// A handle at an address.
    pub fn new(addr: IndexAddress) -> (r: Entry)
        ensures
            r.addr == addr,
    {
        Entry { addr }
    }

    /// Read the value, if set.
    pub fn get<A: RawAccess>(&self, access: &A) -> (r: Option<Vec<u8>>)
        requires
            access.inv(),
            self.wf(),
        ensures
            match r {
                Some(v) => self.value_of(access.view_map()) == Some(v@),
                None => self.value_of(access.view_map()) is None,
            },
    {
        let empty: Vec<u8> = Vec::new();
        let rk = self.addr.resolved_key(&empty);
        match access.raw_get(&rk) {
            Some(v) => Some(copy_bytes(v)),
            None => None,
        }
    }

    /// Set the value.
    pub fn set(&self, fork: &mut Fork, value: Vec<u8>)
        requires
            old(fork).wf(),
            self.wf(),
        ensures
            final(fork).wf(),
            final(fork).base_map() == old(fork).base_map(),
            final(fork)@ == old(fork)@.insert(self.addr.prefix() + Seq::<u8>::empty(), value@),
            self.value_of(final(fork)@) == Some(value@),
    {
        let empty: Vec<u8> = Vec::new();
        let rk = self.addr.resolved_key(&empty);
        fork.put(rk, value);
        proof {
            lemma_index_map_insert(old(fork)@, self.addr.prefix(), Seq::<u8>::empty(), value@);
        }
    }

    /// Unset the value.
    pub fn remove(&self, fork: &mut Fork)
        requires
            old(fork).wf(),
            self.wf(),
        ensures
            final(fork).wf(),
            final(fork).base_map() == old(fork).base_map(),
            final(fork)@ == old(fork)@.remove(self.addr.prefix() + Seq::<u8>::empty()),
            self.value_of(final(fork)@) is None,
    {
        let empty: Vec<u8> = Vec::new();
        let rk = self.addr.resolved_key(&empty);
        fork.remove(&rk);
        proof {
            lemma_index_map_remove(old(fork)@, self.addr.prefix(), Seq::<u8>::empty());
        }
    }
}

/// A set of byte keys: membership is presence of the key itself.
pub struct KeySetIndex {
    pub addr: IndexAddress,
}

impl KeySetIndex {
    /// Representation invariant.
    pub open spec fn wf(self) -> bool {
        self.addr.wf()
    }

    /// The member keys in a given raw view.
    pub open spec fn keys_of(self, store: Map<Seq<u8>, Seq<u8>>) -> Set<Seq<u8>> {
        index_map(store, self.addr.prefix()).dom()
    }

    /// A handle at an address.
    pub fn new(addr: IndexAddress) -> (r: KeySetIndex)
        ensures
            r.addr == addr,
    {
        KeySetIndex { addr }
    }

    /// Whether a key is a member.
    pub fn contains<A: RawAccess>(&self, access: &A, key: &Vec<u8>) -> (r: bool)
        requires
            access.inv(),
            self.wf(),
        ensures
            r == self.keys_of(access.view_map()).contains(key@),
    {
        let rk = self.addr.resolved_key(key);
        match access.raw_get(&rk) {
            Some(_) => true,
            None => false,
        }
    }

    /// Add a key.
    pub fn insert(&self, fork: &mut Fork, key: &Vec<u8>)
        requires
            old(fork).wf(),
            self.wf(),
        ensures
            final(fork).wf(),
            final(fork).base_map() == old(fork).base_map(),
            final(fork)@ == old(fork)@.insert(self.addr.prefix() + key@, Seq::<u8>::empty()),
            self.keys_of(final(fork)@) == self.keys_of(old(fork)@).insert(key@),
    {
        let rk = self.addr.resolved_key(key);
        fork.put(rk, Vec::new());
        proof {
            lemma_index_map_insert(old(fork)@, self.addr.prefix(), key@, Seq::<u8>::empty());
            assert(self.keys_of(fork@) =~= self.keys_of(old(fork)@).insert(key@));
        }
    }

    /// Remove a key.
    pub fn remove(&self, fork: &mut Fork, key: &Vec<u8>)
        requires
            old(fork).wf(),
            self.wf(),
        ensures
            final(fork).wf(),
            final(fork).base_map() == old(fork).base_map(),
            final(fork)@ == old(fork)@.remove(self.addr.prefix() + key@),
            self.keys_of(final(fork)@) == self.keys_of(old(fork)@).remove(key@),
    {
        let rk = self.addr.resolved_key(key);
        fork.remove(&rk);
        proof {
            lemma_index_map_remove(old(fork)@, self.addr.prefix(), key@);
            assert(self.keys_of(fork@) =~= self.keys_of(old(fork)@).remove(key@));
        }
    }
}

/// A set of byte values, stored under their own digest: membership survives
/// any iteration order and duplicate inserts coincide.
pub struct ValueSetIndex {
    pub addr: IndexAddress,
}

impl ValueSetIndex {
    /// Representation invariant.
    pub open spec fn wf(self) -> bool {
        self.addr.wf()
    }

    /// The members in a given raw view, keyed by their digest.
    pub open spec fn map_of(self, store: Map<Seq<u8>, Seq<u8>>) -> Map<Seq<u8>, Seq<u8>> {
        index_map(store, self.addr.prefix())
    }

    /// A handle at an address.
    pub fn new(addr: IndexAddress) -> (r: ValueSetIndex)
        ensures
            r.addr == addr,
    {
        ValueSetIndex { addr }
    }

    /// Add a value, keyed by its digest.
    pub fn insert(&self, fork: &mut Fork, value: Vec<u8>)
        requires
            old(fork).wf(),
            self.wf(),
        ensures
            final(fork).wf(),
            final(fork).base_map() == old(fork).base_map(),
            final(fork)@ == old(fork)@.insert(self.addr.prefix() + hash_of(value@), value@),
            self.map_of(final(fork)@) == self.map_of(old(fork)@).insert(hash_of(value@), value@),
    {
        let h = sha256(value.as_slice());
        let rk = self.addr.resolved_key(&h);
        let ghost v = value@;
        fork.put(rk, value);
        proof {
            lemma_index_map_insert(old(fork)@, self.addr.prefix(), hash_of(v), v);
        }
    }

    /// Whether a value with the given digest is a member.
    pub fn contains_by_hash<A: RawAccess>(&self, access: &A, h: &Vec<u8>) -> (r: bool)
        requires
            access.inv(),
            self.wf(),
        ensures
            r == self.map_of(access.view_map()).contains_key(h@),
    {
        let rk = self.addr.resolved_key(h);
        match access.raw_get(&rk) {
            Some(_) => true,
            None => false,
        }
    }

    /// Whether a value is a member.
    pub fn contains<A: RawAccess>(&self, access: &A, value: &Vec<u8>) -> (r: bool)
        requires
            access.inv(),
            self.wf(),
        ensures
            r == self.map_of(access.view_map()).contains_key(hash_of(value@)),
    {
        let h = sha256(value.as_slice());
        self.contains_by_hash(access, &h)
    }

    /// Remove a value.
    pub fn remove(&self, fork: &mut Fork, value: &Vec<u8>)
        requires
            old(fork).wf(),
            self.wf(),
        ensures
            final(fork).wf(),
            final(fork).base_map() == old(fork).base_map(),
            final(fork)@ == old(fork)@.remove(self.addr.prefix() + hash_of(value@)),
            self.map_of(final(fork)@) == self.map_of(old(fork)@).remove(hash_of(value@)),
    {
        let h = sha256(value.as_slice());
        let rk = self.addr.resolved_key(&h);
        fork.remove(&rk);
        proof {
            lemma_index_map_remove(old(fork)@, self.addr.prefix(), hash_of(value@));
        }
    }
}

/// The length slot of a list index: the entry under the empty local key.
pub open spec fn list_len_of(im: Map<Seq<u8>, Seq<u8>>) -> u64 {
    if im.contains_key(Seq::<u8>::empty()) {
        be64_val(im[Seq::<u8>::empty()])
    } else {
        0
    }
}

/// A list index is well formed when its length slot decodes and every
/// position below the length is present.
pub open spec fn list_wf_im(im: Map<Seq<u8>, Seq<u8>>) -> bool {
    (im.contains_key(Seq::<u8>::empty()) ==> im[Seq::<u8>::empty()].len() == 8) && (forall|i: u64|
        i < list_len_of(im) ==> im.contains_key(#[trigger] be64(i)))
}

/// The values of a list index, by position.
pub open spec fn list_view_im(im: Map<Seq<u8>, Seq<u8>>) -> Seq<Seq<u8>> {
    Seq::new(list_len_of(im) as nat, |i: int| im[be64(i as u64)])
}

/// An appendable list: positions are fixed-width big-endian counters, and a
/// dedicated slot tracks the length.
pub struct ListIndex {
    pub addr: IndexAddress,
}

impl ListIndex {
    /// Representation invariant of the handle.
    pub open spec fn wf(self) -> bool {
        self.addr.wf()
    }

    /// Well-formedness of the stored list in a given raw view.
    pub open spec fn lwf(self, store: Map<Seq<u8>, Seq<u8>>) -> bool {
        list_wf_im(index_map(store, self.addr.prefix()))
    }

    /// The list's values in a given raw view.
    pub open spec fn lview(self, store: Map<Seq<u8>, Seq<u8>>) -> Seq<Seq<u8>> {
        list_view_im(index_map(store, self.addr.prefix()))
    }

    /// A handle at an address.
    pub fn new(addr: IndexAddress) -> (r: ListIndex)
        ensures
            r.addr == addr,
    {
        ListIndex { addr }
    }

    /// The number of values.
    pub fn len<A: RawAccess>(&self, access: &A) -> (n: u64)
        requires
            access.inv(),
            self.wf(),
            self.lwf(access.view_map()),
        ensures
            n == self.lview(access.view_map()).len(),
    {
        let empty: Vec<u8> = Vec::new();
        let rk = self.addr.resolved_key(&empty);
        match access.raw_get(&rk) {
            Some(v) => u64_from_be(v),
            None => 0,
        }
    }

    /// Read the value at a position.
    pub fn get<A: RawAccess>(&self, access: &A, i: u64) -> (r: Vec<u8>)
        requires
            access.inv(),
            self.wf(),
            self.lwf(access.view_map()),
            i < self.lview(access.view_map()).len(),
        ensures
            r@ == self.lview(access.view_map())[i as int],
    {
        let kb = u64_to_be(i);
        let rk = self.addr.resolved_key(&kb);
        match access.raw_get(&rk) {
            Some(v) => copy_bytes(v),
            None => {
                proof {
                    let im = index_map(access.view_map(), self.addr.prefix());
                    assert(im.contains_key(be64(i)));
                    assert(false);
                }
                Vec::new()
            },
        }
    }

    /// Append a value.
    pub fn push(&self, fork: &mut Fork, value: Vec<u8>)
        requires
            old(fork).wf(),
            self.wf(),
            self.lwf(old(fork)@),
            self.lview(old(fork)@).len() < u64::MAX,
        ensures
            final(fork).wf(),
            final(fork).base_map() == old(fork).base_map(),
            final(fork)@ == old(fork)@.insert(
                self.addr.prefix() + be64(self.lview(old(fork)@).len() as u64),
                value@,
            ).insert(
                self.addr.prefix() + Seq::<u8>::empty(),
                be64((self.lview(old(fork)@).len() + 1) as u64),
            ),
            self.lwf(final(fork)@),
            self.lview(final(fork)@) == self.lview(old(fork)@).push(value@),
    {
        let ghost im0 = index_map(old(fork)@, self.addr.prefix());
        let n = self.len(fork);
        let kb = u64_to_be(n);
        let rk = self.addr.resolved_key(&kb);
        let ghost v = value@;
        fork.put(rk, value);
        proof {
            lemma_index_map_insert(old(fork)@, self.addr.prefix(), be64(n), v);
        }
        let ghost mid = fork@;
        let empty: Vec<u8> = Vec::new();
        let lk = self.addr.resolved_key(&empty);
        let nb = u64_to_be(n + 1);
        fork.put(lk, nb);
        proof {
            lemma_index_map_insert(mid, self.addr.prefix(), Seq::<u8>::empty(), be64((n + 1) as u64));
            let im2 = index_map(fork@, self.addr.prefix());
            assert(im2 =~= im0.insert(be64(n), v).insert(Seq::<u8>::empty(), be64((n + 1) as u64)));
            lemma_be64_roundtrip((n + 1) as u64);
            assert(list_len_of(im2) == n + 1);
            assert forall|i: u64| i < n + 1 implies im2.contains_key(#[trigger] be64(i)) by {
                assert(be64(i).len() == 8);
                if i < n {
                    assert(im0.contains_key(be64(i)));
                }
            }
            assert(self.lview(fork@) =~= self.lview(old(fork)@).push(v)) by {
                assert forall|i: int| 0 <= i < n + 1 implies list_view_im(im2)[i] == self.lview(
                    old(fork)@,
                ).push(v)[i] by {
                    assert(be64(i as u64).len() == 8);
                    if i < n {
                        if be64(i as u64) == be64(n) {
                            lemma_be64_injective(i as u64, n);
                        }
                        assert(im2[be64(i as u64)] == im0[be64(i as u64)]);
                    } else {
                        assert(im2[be64(n)] == v);
                    }
                }
            }
        }
    }

    /// Overwrite the value at a position.
    pub fn set(&self, fork: &mut Fork, i: u64, value: Vec<u8>)
        requires
            old(fork).wf(),
            self.wf(),
            self.lwf(old(fork)@),
            i < self.lview(old(fork)@).len(),
        ensures
            final(fork).wf(),
            final(fork).base_map() == old(fork).base_map(),
            final(fork)@ == old(fork)@.insert(self.addr.prefix() + be64(i), value@),
            self.lwf(final(fork)@),
            self.lview(final(fork)@) == self.lview(old(fork)@).update(i as int, value@),
    {
        let ghost im0 = index_map(old(fork)@, self.addr.prefix());
        let kb = u64_to_be(i);
        let rk = self.addr.resolved_key(&kb);
        let ghost v = value@;
        fork.put(rk, value);
        proof {
            lemma_index_map_insert(old(fork)@, self.addr.prefix(), be64(i), v);
            let im2 = index_map(fork@, self.addr.prefix());
            assert(im2 =~= im0.insert(be64(i), v));
            assert(be64(i).len() == 8);
            assert(list_len_of(im2) == list_len_of(im0));
            assert forall|j: u64| j < list_len_of(im2) implies im2.contains_key(
                #[trigger] be64(j),
            ) by {
                assert(im0.contains_key(be64(j)));
            }
            assert(self.lview(fork@) =~= self.lview(old(fork)@).update(i as int, v)) by {
                assert forall|j: int| 0 <= j < list_len_of(im2) implies list_view_im(im2)[j]
                    == self.lview(old(fork)@).update(i as int, v)[j] by {
                    if j != i {
                        if be64(j as u64) == be64(i) {
                            lemma_be64_injective(j as u64, i);
                        }
                        assert(im2[be64(j as u64)] == im0[be64(j as u64)]);
                    }
                }
            }
        }
    }
}

} // verus!
