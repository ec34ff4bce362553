//! The copy-on-write access layer: an immutable `Snapshot`, a mutable `Fork`
//! holding pending changes over a snapshot, the `Patch` extracted from a
//! fork, and the in-memory `TemporaryDb` backing store that serves snapshots
//! and atomically merges patches.
//!
//! A snapshot is an owned value and is never mutated, so its view is fixed at
//! creation: writes staged in a fork, and patches merged later, cannot reach
//! it. Writing is a capability of `Fork` alone — a snapshot has no mutating
//! method, so a mutating operation on a read-only access is rejected at
//! compile time rather than at run time.

use vstd::prelude::*;

use crate::bytes::copy_bytes;
use crate::changes::{change_view, Change, ChangeMap};
use crate::kv::{keys_sorted, kmap, pair_view, restrict_from, ByteMap};
use crate::merge::{apply_changes, merged_entries_from, some_val};

verus! {

/// Read capability over one point-in-time view of the store: what a typed
/// index needs from the access it borrows.
pub trait RawAccess: Sized {
    /// The byte-keyed map this access reads.
    spec fn view_map(&self) -> Map<Seq<u8>, Seq<u8>>;

    /// Representation invariant of the access.
    spec fn inv(&self) -> bool;

    /// Look one raw key up.
    fn raw_get(&self, key: &Vec<u8>) -> (r: Option<&Vec<u8>>)
        requires
            self.inv(),
        ensures
            match r {
                Some(v) => self.view_map().contains_key(key@) && v@ == self.view_map()[key@],
                None => !self.view_map().contains_key(key@),
            },
    ;

    /// All entries whose key is not below `from`, in ascending key order.
    fn raw_entries_from(&self, from: &Vec<u8>) -> (r: Vec<(Vec<u8>, Vec<u8>)>)
        requires
            self.inv(),
        ensures
            keys_sorted(pair_view(r@)),
            kmap(pair_view(r@)) == restrict_from(self.view_map(), from@),
    ;
}

/// An immutable, point-in-time view of the committed store.
pub struct Snapshot {
    pub data: ByteMap,
}

impl View for Snapshot {
    type V = Map<Seq<u8>, Seq<u8>>;

    open spec fn view(&self) -> Map<Seq<u8>, Seq<u8>> {
        self.data@
    }
}

impl Snapshot {
    /// Representation invariant.
    pub open spec fn wf(self) -> bool {
        self.data.wf()
    }

    /// Look one raw key up in the snapshot.
    pub fn get(&self, key: &Vec<u8>) -> (r: Option<&Vec<u8>>)
        requires
            self.wf(),
        ensures
            match r {
                Some(v) => self@.contains_key(key@) && v@ == self@[key@],
                None => !self@.contains_key(key@),
            },
    {
        self.data.get(key)
    }
}

impl RawAccess for Snapshot {
    open spec fn view_map(&self) -> Map<Seq<u8>, Seq<u8>> {
        self.data@
    }

    open spec fn inv(&self) -> bool {
        self.wf()
    }

    fn raw_get(&self, key: &Vec<u8>) -> (r: Option<&Vec<u8>>) {
        self.data.get(key)
    }

    fn raw_entries_from(&self, from: &Vec<u8>) -> (r: Vec<(Vec<u8>, Vec<u8>)>) {
        self.data.entries_from(from)
    }
}

/// A mutable overlay over a snapshot: reads check the pending change log
/// first and fall through to the base; writes only ever touch the log.
pub struct Fork {
    pub base: Snapshot,
    pub changes: ChangeMap,
}

impl View for Fork {
    type V = Map<Seq<u8>, Seq<u8>>;

    open spec fn view(&self) -> Map<Seq<u8>, Seq<u8>> {
        apply_changes(self.base@, self.changes@)
    }
}

impl Fork {
    /// The committed view this fork was created over.
    pub open spec fn base_map(self) -> Map<Seq<u8>, Seq<u8>> {
        self.base@
    }

    /// The pending change log: per key, a put value or a tombstone.
    pub open spec fn pending(self) -> Map<Seq<u8>, Option<Seq<u8>>> {
        self.changes@
    }

    /// Representation invariant.
    pub open spec fn wf(self) -> bool {
        self.base.wf() && self.changes.wf()
    }

    /// Read a raw key through the overlay: the most recent pending write
    /// wins, a tombstone reads as absent, anything else falls through.
    pub fn get(&self, key: &Vec<u8>) -> (r: Option<&Vec<u8>>)
        requires
            self.wf(),
        ensures
            match r {
                Some(v) => self@.contains_key(key@) && v@ == self@[key@],
                None => !self@.contains_key(key@),
            },
    {
        match self.changes.get_change(key) {
            Some(c) => match c {
                Change::Put(v) => Some(v),
                Change::Delete => None,
            },
            None => self.base.data.get(key),
        }
    }

    /// Stage a write of `value` under `key`.
    pub fn put(&mut self, key: Vec<u8>, value: Vec<u8>)
        requires
            old(self).wf(),
        ensures
            final(self).wf(),
            final(self).base_map() == old(self).base_map(),
            final(self).pending() == old(self).pending().insert(key@, Some(value@)),
            final(self)@ == old(self)@.insert(key@, value@),
    {
        let ghost k = key@;
        let ghost v = value@;
        self.changes.record(key, Change::Put(value));
        proof {
            assert(self@ =~= old(self)@.insert(k, v));
        }
    }

    /// Stage a deletion of `key`: a tombstone that also suppresses the
    /// committed entry, if any.
    pub fn remove(&mut self, key: &Vec<u8>)
        requires
            old(self).wf(),
        ensures
            final(self).wf(),
            final(self).base_map() == old(self).base_map(),
            final(self).pending() == old(self).pending().insert(key@, None),
            final(self)@ == old(self)@.remove(key@),
    {
        let owned = copy_bytes(key);
        self.changes.record(owned, Change::Delete);
        proof {
            assert(self@ =~= old(self)@.remove(key@));
        }
    }

    /// Finalize the fork into a patch, giving the accumulated change log up.
    pub fn into_patch(self) -> (p: Patch)
        requires
            self.wf(),
        ensures
            p.wf(),
            p@ == self.pending(),
    {
        Patch { changes: self.changes }
    }
}

impl RawAccess for Fork {
    open spec fn view_map(&self) -> Map<Seq<u8>, Seq<u8>> {
        apply_changes(self.base@, self.changes@)
    }

    open spec fn inv(&self) -> bool {
        self.wf()
    }

    fn raw_get(&self, key: &Vec<u8>) -> (r: Option<&Vec<u8>>) {
        self.get(key)
    }

    fn raw_entries_from(&self, from: &Vec<u8>) -> (r: Vec<(Vec<u8>, Vec<u8>)>) {
        merged_entries_from(&self.base.data, &self.changes, from)
    }
}

/// The finalized, immutable set of changes extracted from a fork, ready to
/// be applied atomically.
pub struct Patch {
    pub changes: ChangeMap,
}

impl View for Patch {
    type V = Map<Seq<u8>, Option<Seq<u8>>>;

    open spec fn view(&self) -> Map<Seq<u8>, Option<Seq<u8>>> {
        self.changes@
    }
}

impl Patch {
    /// Representation invariant.
    pub open spec fn wf(self) -> bool {
        self.changes.wf()
    }
}

/// An in-memory backing store: serves immutable snapshots and forks of its
/// current state and merges patches atomically, by value, so a half-applied
/// patch can never be observed.
pub struct TemporaryDb {
    pub data: ByteMap,
}

impl View for TemporaryDb {
    type V = Map<Seq<u8>, Seq<u8>>;

    open spec fn view(&self) -> Map<Seq<u8>, Seq<u8>> {
        self.data@
    }
}

impl TemporaryDb {
    /// Representation invariant.
    pub open spec fn wf(self) -> bool {
        self.data.wf()
    }

    /// An empty store.
    pub fn new() -> (r: TemporaryDb)
        ensures
            r.wf(),
            r@ == Map::<Seq<u8>, Seq<u8>>::empty(),
    {
        TemporaryDb { data: ByteMap::new() }
    }

    /// A point-in-time view of the current state; later merges leave it
    /// untouched.
    pub fn snapshot(&self) -> (s: Snapshot)
        requires
            self.wf(),
        ensures
            s.wf(),
            s@ == self@,
    {
        Snapshot { data: self.data.duplicate() }
    }

    /// A fresh mutable overlay over the current state, with an empty change
    /// log: it reads exactly the current committed view.
    pub fn fork(&self) -> (f: Fork)
        requires
            self.wf(),
        ensures
            f.wf(),
            f.base_map() == self@,
            f.pending() == Map::<Seq<u8>, Option<Seq<u8>>>::empty(),
            f@ == self@,
    {
        let f = Fork { base: self.snapshot(), changes: ChangeMap::new() };
        proof {
            assert(f@ =~= self@);
        }
        f
    }

    /// Apply a patch: every put and every deletion in it becomes visible to
    /// snapshots taken afterwards, all at once.
    pub fn merge(&mut self, patch: Patch)
        requires
            old(self).wf(),
            patch.wf(),
        ensures
            final(self).wf(),
            final(self)@ == apply_changes(old(self)@, patch@),
    {
        let ghost orig = self.data@;
        let ghost cp = patch.changes.pair_seq();
        let n = patch.changes.entries.len();
        let mut idx: usize = 0;
        proof {
            assert(cp.take(0) =~= Seq::<(Seq<u8>, Option<Seq<u8>>)>::empty());
            assert(self.data@ =~= apply_changes(orig, kmap(cp.take(0))));
        }
        while idx < n
            invariant
                self.data.wf(),
                patch.wf(),
                0 <= idx <= n,
                n == patch.changes.entries@.len(),
                cp == patch.changes.pair_seq(),
                self.data@ == apply_changes(orig, kmap(cp.take(idx as int))),
            decreases n - idx,
        {
            let ghost before = self.data@;
            match &patch.changes.entries[idx].1 {
                Change::Put(v) => {
                    let k = copy_bytes(&patch.changes.entries[idx].0);
                    let vv = copy_bytes(v);
                    self.data.put(k, vv);
                },
                Change::Delete => {
                    self.data.delete(&patch.changes.entries[idx].0);
                },
            }
            proof {
                assert(cp.take(idx + 1) =~= cp.take(idx as int).push(cp[idx as int]));
                assert(cp.take(idx + 1).drop_last() =~= cp.take(idx as int));
                assert(kmap(cp.take(idx + 1)) == kmap(cp.take(idx as int)).insert(
                    cp[idx as int].0,
                    cp[idx as int].1,
                ));
                assert(self.data@ =~= apply_changes(orig, kmap(cp.take(idx + 1))));
            }
            idx = idx + 1;
        }
        proof {
            assert(cp.take(n as int) =~= cp);
        }
    }
}

/// Fork isolation. A fork with an empty change log reads exactly the
/// committed view it was created over — so a snapshot, which is that
/// committed view held as an owned value, never reflects pending writes.
/// Once the pending log is applied, every put in it is visible in the merged
/// view with its new value, every tombstone has erased its key, and every
/// untouched key reads as it did before.
pub proof fn lemma_fork_isolation(
    base: Map<Seq<u8>, Seq<u8>>,
    pending: Map<Seq<u8>, Option<Seq<u8>>>,
)
    ensures
        apply_changes(base, Map::<Seq<u8>, Option<Seq<u8>>>::empty()) == base,
        forall|k: Seq<u8>|
            pending.contains_key(k) && #[trigger] pending[k] is Some ==> apply_changes(
                base,
                pending,
            ).contains_key(k) && apply_changes(base, pending)[k] == some_val(pending[k]),
        forall|k: Seq<u8>|
            pending.contains_key(k) && #[trigger] pending[k] is None ==> !apply_changes(
                base,
                pending,
            ).contains_key(k),
        forall|k: Seq<u8>|
            !(#[trigger] pending.contains_key(k)) ==> (apply_changes(base, pending).contains_key(k)
                == base.contains_key(k) && (base.contains_key(k) ==> apply_changes(base, pending)[k]
                == base[k])),
{
    assert(apply_changes(base, Map::<Seq<u8>, Option<Seq<u8>>>::empty()) =~= base);
}

} // verus!
