//! The Merkelized map: a binary trie keyed by the 256-bit digest of each key,
//! so path lengths are uniform regardless of key shape. The root digest
//! summarizes the whole map; a proof carries the digests of the subtrees
//! pruned off the query path, enough to recompute the root and attest the
//! key's presence (with its value digest) or absence.

use vstd::prelude::*;

use crate::access::{Fork, RawAccess};
use crate::address::{index_map, lemma_index_map_insert, lemma_index_map_remove, IndexAddress};
use crate::bytes::copy_bytes;
use crate::hash::{hash_of, sha256};
use crate::kv::{keys_sorted, kmap, pair_view, lemma_kmap_canonical};
use crate::proof_list::empty_root;
use crate::proof_list::empty_root_bytes;

verus! {

/// Bit `d` of a digest, most significant first.
pub open spec fn bit_at(h: Seq<u8>, d: int) -> bool {
    ((h[d / 8] as u64) >> ((7 - (d % 8)) as u64)) & 1 == 1
}

/// Read bit `d` of a 32-byte digest.
pub fn get_bit(h: &Vec<u8>, d: usize) -> (b: bool)
    requires
        h@.len() == 32,
        d < 256,
    ensures
        b == bit_at(h@, d as int),
{
    let byte = h[d / 8];
    ((byte as u64) >> ((7 - (d % 8)) as u64)) & 1 == 1
}

/// The digest of a trie leaf: a tag, the key digest, the value digest.
pub open spec fn map_leaf_hash(kh: Seq<u8>, vh: Seq<u8>) -> Seq<u8> {
    hash_of(seq![2u8] + kh + vh)
}

/// The digest of a trie branch: a tag, the bit position it splits at, and
/// the two child digests.
pub open spec fn branch_hash(d: int, lh: Seq<u8>, rh: Seq<u8>) -> Seq<u8> {
    hash_of(seq![3u8, d as u8] + lh + rh)
}

/// Compute a leaf digest.
pub fn hash_map_leaf(kh: &Vec<u8>, vh: &Vec<u8>) -> (r: Vec<u8>)
    ensures
        r@ == map_leaf_hash(kh@, vh@),
{
    let mut buf: Vec<u8> = Vec::new();
    buf.push(2u8);
    let mut ka = copy_bytes(kh);
    buf.append(&mut ka);
    let mut va = copy_bytes(vh);
    buf.append(&mut va);
    proof {
        assert(buf@ =~= seq![2u8] + kh@ + vh@);
    }
    sha256(buf.as_slice())
}

/// Compute a branch digest.
pub fn hash_map_branch(d: u8, lh: &Vec<u8>, rh: &Vec<u8>) -> (r: Vec<u8>)
    ensures
        r@ == branch_hash(d as int, lh@, rh@),
{
    let mut buf: Vec<u8> = Vec::new();
    buf.push(3u8);
    buf.push(d);
    let mut la = copy_bytes(lh);
    buf.append(&mut la);
    let mut ra = copy_bytes(rh);
    buf.append(&mut ra);
    proof {
        assert(buf@ =~= seq![3u8, d as u8] + lh@ + rh@);
    }
    sha256(buf.as_slice())
}

/// Whether the entry's key digest has bit `d` clear: it belongs left.
pub open spec fn goes_left(e: (Seq<u8>, Seq<u8>), d: int) -> bool {
    !bit_at(e.0, d)
}

/// The digest of the subtree holding `s` (pairs of key digest and value
/// digest) below depth `d`: a lone entry is a leaf; a one-sided split is
/// skipped (path compression); a two-sided split is a branch. The empty map
/// keeps the sentinel root.
pub open spec fn subtree_hash(s: Seq<(Seq<u8>, Seq<u8>)>, d: int) -> Seq<u8>
    decreases 257 - d,
{
    if s.len() == 0 {
        empty_root()
    } else if s.len() == 1 {
        map_leaf_hash(s[0].0, s[0].1)
    } else if !(0 <= d && d < 256) {
        map_leaf_hash(s.last().0, s.last().1)
    } else {
        let l = s.filter(|e: (Seq<u8>, Seq<u8>)| goes_left(e, d));
        let r = s.filter(|e: (Seq<u8>, Seq<u8>)| !goes_left(e, d));
        if l.len() == 0 {
            subtree_hash(r, d + 1)
        } else if r.len() == 0 {
            subtree_hash(l, d + 1)
        } else {
            branch_hash(d, subtree_hash(l, d + 1), subtree_hash(r, d + 1))
        }
    }
}

/// The key and value digests of a sequence of entries.
pub open spec fn hash_pairs(s: Seq<(Seq<u8>, Seq<u8>)>) -> Seq<(Seq<u8>, Seq<u8>)> {
    Seq::new(s.len(), |i: int| (hash_of(s[i].0), hash_of(s[i].1)))
}

/// The canonical sorted entry list of a finite map view.
pub open spec fn canonical_entries(im: Map<Seq<u8>, Seq<u8>>) -> Seq<(Seq<u8>, Seq<u8>)> {
    choose|s: Seq<(Seq<u8>, Seq<u8>)>| keys_sorted(s) && kmap(s) == im
}

/// The root digest of a map view: the trie over the digests of its entries
/// in canonical (ascending key) order.
pub open spec fn map_root_of(im: Map<Seq<u8>, Seq<u8>>) -> Seq<u8> {
    subtree_hash(hash_pairs(canonical_entries(im)), 0)
}

/// The canonical entry list of the map a sorted list denotes is that list.
pub proof fn lemma_canonical_entries(s: Seq<(Seq<u8>, Seq<u8>)>)
    requires
        keys_sorted(s),
    ensures
        canonical_entries(kmap(s)) == s,
{
    assert(keys_sorted(s) && kmap(s) == kmap(s));
    let c = canonical_entries(kmap(s));
    assert(keys_sorted(c) && kmap(c) == kmap(s));
    lemma_kmap_canonical(c, s);
}

/// Determinism: the root digest depends only on the map's contents. Two
/// instances that reached equal contents — by whatever sequence of writes
/// and deletions — have equal roots.
pub proof fn lemma_root_deterministic(s1: Seq<(Seq<u8>, Seq<u8>)>, s2: Seq<(Seq<u8>, Seq<u8>)>)
    requires
        keys_sorted(s1),
        keys_sorted(s2),
        kmap(s1) == kmap(s2),
    ensures
        subtree_hash(hash_pairs(s1), 0) == subtree_hash(hash_pairs(s2), 0),
{
    lemma_kmap_canonical(s1, s2);
}

/// Confluence to the sentinel: whatever insertions and removals led there,
/// a map with no entries left has the documented empty-map root.
pub proof fn lemma_empty_map_root(im: Map<Seq<u8>, Seq<u8>>)
    requires
        im == Map::<Seq<u8>, Seq<u8>>::empty(),
    ensures
        map_root_of(im) == empty_root(),
{
    let e = Seq::<(Seq<u8>, Seq<u8>)>::empty();
    assert(kmap(e) == Map::<Seq<u8>, Seq<u8>>::empty());
    lemma_canonical_entries(e);
    assert(hash_pairs(e) =~= Seq::<(Seq<u8>, Seq<u8>)>::empty());
}

/// The Merkelized map index.
pub struct ProofMapIndex {
    pub addr: IndexAddress,
}

impl ProofMapIndex {
    /// Representation invariant.
    pub open spec fn wf(self) -> bool {
        self.addr.wf()
    }

    /// What this index holds in a given raw view.
    pub open spec fn map_of(self, store: Map<Seq<u8>, Seq<u8>>) -> Map<Seq<u8>, Seq<u8>> {
        index_map(store, self.addr.prefix())
    }

    /// A handle at an address.
    pub fn new(addr: IndexAddress) -> (r: ProofMapIndex)
        ensures
            r.addr == addr,
    {
        ProofMapIndex { addr }
    }

    /// Look a key up; `Some` exactly when present.
    pub fn get<A: RawAccess>(&self, access: &A, key: &Vec<u8>) -> (r: Option<Vec<u8>>)
        requires
            access.inv(),
            self.wf(),
        ensures
            match r {
                Some(v) => self.map_of(access.view_map()).contains_key(key@) && v@ == self.map_of(
                    access.view_map(),
                )[key@],
                None => !self.map_of(access.view_map()).contains_key(key@),
            },
    {
        let rk = self.addr.resolved_key(key);
        match access.raw_get(&rk) {
            Some(v) => Some(copy_bytes(v)),
            None => None,
        }
    }

    /// Whether a key is present.
    pub fn contains<A: RawAccess>(&self, access: &A, key: &Vec<u8>) -> (r: bool)
        requires
            access.inv(),
            self.wf(),
        ensures
            r == self.map_of(access.view_map()).contains_key(key@),
    {
        match self.get(access, key) {
            Some(_) => true,
            None => false,
        }
    }

    /// Write a value under a key.
    pub fn put(&self, fork: &mut Fork, key: &Vec<u8>, value: Vec<u8>)
        requires
            old(fork).wf(),
            self.wf(),
        ensures
            final(fork).wf(),
            final(fork).base_map() == old(fork).base_map(),
            final(fork)@ == old(fork)@.insert(self.addr.prefix() + key@, value@),
            self.map_of(final(fork)@) == self.map_of(old(fork)@).insert(key@, value@),
    {
        let rk = self.addr.resolved_key(key);
        fork.put(rk, value);
        proof {
            lemma_index_map_insert(old(fork)@, self.addr.prefix(), key@, value@);
        }
    }

    /// Delete a key.
    pub fn remove(&self, fork: &mut Fork, key: &Vec<u8>)
        requires
            old(fork).wf(),
            self.wf(),
        ensures
            final(fork).wf(),
            final(fork).base_map() == old(fork).base_map(),
            final(fork)@ == old(fork)@.remove(self.addr.prefix() + key@),
            self.map_of(final(fork)@) == self.map_of(old(fork)@).remove(key@),
    {
        let rk = self.addr.resolved_key(key);
        fork.remove(&rk);
        proof {
            lemma_index_map_remove(old(fork)@, self.addr.prefix(), key@);
        }
    }

    /// The root digest of the whole index; the empty map keeps the sentinel.
    pub fn object_hash<A: RawAccess>(&self, access: &A) -> (r: Vec<u8>)
        requires
            access.inv(),
            self.wf(),
        ensures
            r@ == map_root_of(self.map_of(access.view_map())),
    {
        let entries = crate::address::index_entries(access, &self.addr);
        proof {
            lemma_canonical_entries(pair_view(entries@));
        }
        let mut hentries: Vec<(Vec<u8>, Vec<u8>)> = Vec::new();
        let mut i: usize = 0;
        while i < entries.len()
            invariant
                0 <= i <= entries@.len(),
                hentries@.len() == i,
                forall|t: int|
                    0 <= t < i ==> (#[trigger] hentries@[t]).0@ == hash_of(entries@[t].0@)
                        && hentries@[t].1@ == hash_of(entries@[t].1@) && hentries@[t].0@.len()
                        == 32,
            decreases entries@.len() - i,
        {
            let kh = sha256(entries[i].0.as_slice());
            let vh = sha256(entries[i].1.as_slice());
            hentries.push((kh, vh));
            i = i + 1;
        }
        proof {
            assert(pair_view(hentries@) =~= hash_pairs(pair_view(entries@)));
        }
        map_subtree(hentries, 0)
    }
}

/// Split entries by the bit of their key digest at depth `d`.
fn partition_by_bit(entries: &Vec<(Vec<u8>, Vec<u8>)>, d: usize) -> (r: (
    Vec<(Vec<u8>, Vec<u8>)>,
    Vec<(Vec<u8>, Vec<u8>)>,
))
    requires
        d < 256,
        forall|t: int| 0 <= t < entries@.len() ==> (#[trigger] entries@[t]).0@.len() == 32,
    ensures
        pair_view(r.0@) == pair_view(entries@).filter(|e: (Seq<u8>, Seq<u8>)| goes_left(e, d as int)),
        pair_view(r.1@) == pair_view(entries@).filter(
            |e: (Seq<u8>, Seq<u8>)| !goes_left(e, d as int),
        ),
        forall|t: int| 0 <= t < r.0@.len() ==> (#[trigger] r.0@[t]).0@.len() == 32,
        forall|t: int| 0 <= t < r.1@.len() ==> (#[trigger] r.1@[t]).0@.len() == 32,
        r.0@.len() + r.1@.len() == entries@.len(),
{
    let mut l: Vec<(Vec<u8>, Vec<u8>)> = Vec::new();
    let mut r: Vec<(Vec<u8>, Vec<u8>)> = Vec::new();
    let mut i: usize = 0;
    proof {
        assert(pair_view(entries@).take(0) =~= Seq::<(Seq<u8>, Seq<u8>)>::empty());
        assert(pair_view(l@) =~= Seq::<(Seq<u8>, Seq<u8>)>::empty());
        assert(pair_view(r@) =~= Seq::<(Seq<u8>, Seq<u8>)>::empty());
        reveal(Seq::filter);
    }
    while i < entries.len()
        invariant
            0 <= i <= entries@.len(),
            d < 256,
            forall|t: int| 0 <= t < entries@.len() ==> (#[trigger] entries@[t]).0@.len() == 32,
            forall|t: int| 0 <= t < l@.len() ==> (#[trigger] l@[t]).0@.len() == 32,
            forall|t: int| 0 <= t < r@.len() ==> (#[trigger] r@[t]).0@.len() == 32,
            l@.len() + r@.len() == i,
            pair_view(l@) == pair_view(entries@).take(i as int).filter(
                |e: (Seq<u8>, Seq<u8>)| goes_left(e, d as int),
            ),
            pair_view(r@) == pair_view(entries@).take(i as int).filter(
                |e: (Seq<u8>, Seq<u8>)| !goes_left(e, d as int),
            ),
        decreases entries@.len() - i,
    {
        let ghost pre = pair_view(entries@).take(i as int);
        let ghost e = pair_view(entries@)[i as int];
        let ghost lp = pair_view(l@);
        let ghost rp = pair_view(r@);
        let kh = copy_bytes(&entries[i].0);
        let vh = copy_bytes(&entries[i].1);
        let b = get_bit(&kh, d);
        if !b {
            l.push((kh, vh));
        } else {
            r.push((kh, vh));
        }
        proof {
            let pred_l = |e: (Seq<u8>, Seq<u8>)| goes_left(e, d as int);
            let pred_r = |e: (Seq<u8>, Seq<u8>)| !goes_left(e, d as int);
            assert(pair_view(entries@).take(i + 1) =~= pre.push(e));
            assert(pre.push(e).drop_last() =~= pre);
            reveal(Seq::filter);
            assert(pre.push(e).filter(pred_l) == if pred_l(e) {
                pre.filter(pred_l).push(e)
            } else {
                pre.filter(pred_l)
            });
            assert(pre.push(e).filter(pred_r) == if pred_r(e) {
                pre.filter(pred_r).push(e)
            } else {
                pre.filter(pred_r)
            });
            if !b {
                assert(pair_view(l@) =~= lp.push(e));
                assert(pair_view(r@) == rp);
            } else {
                assert(pair_view(r@) =~= rp.push(e));
                assert(pair_view(l@) == lp);
            }
        }
        i = i + 1;
    }
    proof {
        assert(pair_view(entries@).take(entries@.len() as int) =~= pair_view(entries@));
    }
    (l, r)
}

/// The root digest of the trie over the given key/value digests below
/// depth `d`.
fn map_subtree(entries: Vec<(Vec<u8>, Vec<u8>)>, d: usize) -> (root: Vec<u8>)
    requires
        d <= 256,
        forall|t: int| 0 <= t < entries@.len() ==> (#[trigger] entries@[t]).0@.len() == 32,
    ensures
        root@ == subtree_hash(pair_view(entries@), d as int),
    decreases 257 - d,
{
    if entries.len() == 0 {
        empty_root_bytes()
    } else if entries.len() == 1 {
        hash_map_leaf(&entries[0].0, &entries[0].1)
    } else if d >= 256 {
        let last = entries.len() - 1;
        hash_map_leaf(&entries[last].0, &entries[last].1)
    } else {
        let (l, r) = partition_by_bit(&entries, d);
        if l.len() == 0 {
            map_subtree(r, d + 1)
        } else if r.len() == 0 {
            map_subtree(l, d + 1)
        } else {
            let lh = map_subtree(l, d + 1);
            let rh = map_subtree(r, d + 1);
            hash_map_branch(d as u8, &lh, &rh)
        }
    }
}

/// A node of a map proof: a revealed leaf, a pruned subtree reduced to its
/// digest, a branch with its split position, or the empty map.
pub enum MapProofNode {
    Empty,
    Leaf { khash: Vec<u8>, vhash: Vec<u8> },
    Pruned { digest: Vec<u8> },
    Branch { pos: u16, left: Box<MapProofNode>, right: Box<MapProofNode> },
}

/// The root digest a proof recomputes.
pub open spec fn proof_digest(n: MapProofNode) -> Seq<u8>
    decreases n,
{
    match n {
        MapProofNode::Empty => empty_root(),
        MapProofNode::Leaf { khash, vhash } => map_leaf_hash(khash@, vhash@),
        MapProofNode::Pruned { digest } => digest@,
        MapProofNode::Branch { pos, left, right } => branch_hash(
            pos as int,
            proof_digest(*left),
            proof_digest(*right),
        ),
    }
}

/// What a proof says about one key digest: `None` when the proof does not
/// cover the key's path (it leads into a pruned subtree or out of range);
/// `Some(None)` when it attests absence; `Some(Some(vh))` when it attests
/// presence with value digest `vh`.
pub open spec fn proof_lookup(n: MapProofNode, kh: Seq<u8>) -> Option<Option<Seq<u8>>>
    decreases n,
{
    match n {
        MapProofNode::Empty => Some(None),
        MapProofNode::Leaf { khash, vhash } => if khash@ == kh {
            Some(Some(vhash@))
        } else {
            Some(None)
        },
        MapProofNode::Pruned { digest } => None,
        MapProofNode::Branch { pos, left, right } => if pos >= 256 {
            None
        } else if bit_at(kh, pos as int) {
            proof_lookup(*right, kh)
        } else {
            proof_lookup(*left, kh)
        },
    }
}

/// The value digest of the last entry carrying a key digest, scanning from
/// the end.
pub open spec fn last_entry_vhash(s: Seq<(Seq<u8>, Seq<u8>)>, kh: Seq<u8>) -> Option<Seq<u8>>
    decreases s.len(),
{
    if s.len() == 0 {
        None
    } else if s.last().0 == kh {
        Some(s.last().1)
    } else {
        last_entry_vhash(s.drop_last(), kh)
    }
}

/// A key digest has an entry exactly when the scan finds one.
pub proof fn lemma_last_match_some(s: Seq<(Seq<u8>, Seq<u8>)>, kh: Seq<u8>)
    ensures
        (last_entry_vhash(s, kh) is Some) == (exists|i: int|
            0 <= i < s.len() && (#[trigger] s[i]).0 == kh),
    decreases s.len(),
{
    if s.len() > 0 {
        lemma_last_match_some(s.drop_last(), kh);
        if s.last().0 == kh {
            assert(s[s.len() - 1].0 == kh);
        } else {
            assert(forall|i: int|
                0 <= i < s.drop_last().len() ==> #[trigger] s.drop_last()[i] == s[i]);
            if exists|i: int| 0 <= i < s.len() && (#[trigger] s[i]).0 == kh {
                let i = choose|i: int| 0 <= i < s.len() && (#[trigger] s[i]).0 == kh;
                assert(i < s.len() - 1);
                assert(s.drop_last()[i].0 == kh);
            }
        }
    }
}

/// Every filtered element is an element of the source and satisfies the
/// predicate.
pub proof fn lemma_filter_elems(s: Seq<(Seq<u8>, Seq<u8>)>, pred: spec_fn((Seq<u8>, Seq<u8>)) -> bool)
    ensures
        forall|i: int|
            0 <= i < s.filter(pred).len() ==> s.contains(#[trigger] s.filter(pred)[i]) && pred(
                s.filter(pred)[i],
            ),
    decreases s.len(),
{
    reveal(Seq::filter);
    if s.len() > 0 {
        lemma_filter_elems(s.drop_last(), pred);
        assert(forall|i: int|
            0 <= i < s.drop_last().len() ==> #[trigger] s.drop_last()[i] == s[i]);
        assert forall|i: int| 0 <= i < s.filter(pred).len() implies s.contains(
            #[trigger] s.filter(pred)[i],
        ) && pred(s.filter(pred)[i]) by {
            let f = s.filter(pred);
            let fd = s.drop_last().filter(pred);
            if pred(s.last()) {
                assert(f == fd.push(s.last()));
                if i < fd.len() {
                    assert(f[i] == fd[i]);
                    assert(s.drop_last().contains(fd[i]));
                    let j = choose|j: int|
                        0 <= j < s.drop_last().len() && s.drop_last()[j] == fd[i];
                    assert(s[j] == fd[i]);
                } else {
                    assert(f[i] == s.last());
                    assert(s[s.len() - 1] == s.last());
                }
            } else {
                assert(f == fd);
                assert(s.drop_last().contains(fd[i]));
                let j = choose|j: int| 0 <= j < s.drop_last().len() && s.drop_last()[j] == fd[i];
                assert(s[j] == fd[i]);
            }
        }
    }
}

/// Filtering away entries that cannot carry the key digest does not change
/// the scan's result.
pub proof fn lemma_last_match_filter(
    s: Seq<(Seq<u8>, Seq<u8>)>,
    pred: spec_fn((Seq<u8>, Seq<u8>)) -> bool,
    kh: Seq<u8>,
)
    requires
        forall|i: int| 0 <= i < s.len() && (#[trigger] s[i]).0 == kh ==> pred(s[i]),
    ensures
        last_entry_vhash(s.filter(pred), kh) == last_entry_vhash(s, kh),
    decreases s.len(),
{
    reveal(Seq::filter);
    if s.len() > 0 {
        assert(forall|i: int|
            0 <= i < s.drop_last().len() ==> #[trigger] s.drop_last()[i] == s[i]);
        lemma_last_match_filter(s.drop_last(), pred, kh);
        let f = s.filter(pred);
        let fd = s.drop_last().filter(pred);
        if s.last().0 == kh {
            assert(s[s.len() - 1].0 == kh);
            assert(pred(s.last()));
            assert(f == fd.push(s.last()));
            assert(f.last() == s.last());
            assert(f.drop_last() =~= fd);
        } else {
            if pred(s.last()) {
                assert(f == fd.push(s.last()));
                assert(f.last() == s.last());
                assert(f.drop_last() =~= fd);
            } else {
                assert(f == fd);
            }
        }
    }
}

/// Two 32-byte digests that agree on all 256 bits are equal.
pub proof fn lemma_digest_eq_from_bits(a: Seq<u8>, b: Seq<u8>)
    requires
        a.len() == 32,
        b.len() == 32,
        forall|d: int| 0 <= d < 256 ==> bit_at(a, d) == bit_at(b, d),
    ensures
        a == b,
{
    assert forall|i: int| 0 <= i < 32 implies a[i] == b[i] by {
        let x = a[i];
        let y = b[i];
        assert(bit_at(a, 8 * i + 0) == bit_at(b, 8 * i + 0));
        assert(bit_at(a, 8 * i + 1) == bit_at(b, 8 * i + 1));
        assert(bit_at(a, 8 * i + 2) == bit_at(b, 8 * i + 2));
        assert(bit_at(a, 8 * i + 3) == bit_at(b, 8 * i + 3));
        assert(bit_at(a, 8 * i + 4) == bit_at(b, 8 * i + 4));
        assert(bit_at(a, 8 * i + 5) == bit_at(b, 8 * i + 5));
        assert(bit_at(a, 8 * i + 6) == bit_at(b, 8 * i + 6));
        assert(bit_at(a, 8 * i + 7) == bit_at(b, 8 * i + 7));
        assert((8 * i + 0) / 8 == i && (8 * i + 0) % 8 == 0);
        assert((8 * i + 1) / 8 == i && (8 * i + 1) % 8 == 1);
        assert((8 * i + 2) / 8 == i && (8 * i + 2) % 8 == 2);
        assert((8 * i + 3) / 8 == i && (8 * i + 3) % 8 == 3);
        assert((8 * i + 4) / 8 == i && (8 * i + 4) % 8 == 4);
        assert((8 * i + 5) / 8 == i && (8 * i + 5) % 8 == 5);
        assert((8 * i + 6) / 8 == i && (8 * i + 6) % 8 == 6);
        assert((8 * i + 7) / 8 == i && (8 * i + 7) % 8 == 7);
        assert(x == y) by (bit_vector)
            requires
                ((((x as u64) >> 7u64) & 1 == 1) == (((y as u64) >> 7u64) & 1 == 1)),
                ((((x as u64) >> 6u64) & 1 == 1) == (((y as u64) >> 6u64) & 1 == 1)),
                ((((x as u64) >> 5u64) & 1 == 1) == (((y as u64) >> 5u64) & 1 == 1)),
                ((((x as u64) >> 4u64) & 1 == 1) == (((y as u64) >> 4u64) & 1 == 1)),
                ((((x as u64) >> 3u64) & 1 == 1) == (((y as u64) >> 3u64) & 1 == 1)),
                ((((x as u64) >> 2u64) & 1 == 1) == (((y as u64) >> 2u64) & 1 == 1)),
                ((((x as u64) >> 1u64) & 1 == 1) == (((y as u64) >> 1u64) & 1 == 1)),
                ((((x as u64) >> 0u64) & 1 == 1) == (((y as u64) >> 0u64) & 1 == 1)),
        ;
    }
    assert(a =~= b);
}

/// Build the proof for one key digest over the trie below depth `d`: the
/// path the key selects is kept, everything off it is pruned to its digest.
fn gen_subtree(entries: Vec<(Vec<u8>, Vec<u8>)>, d: usize, kh: &Vec<u8>) -> (n: MapProofNode)
    requires
        d <= 256,
        kh@.len() == 32,
        forall|t: int| 0 <= t < entries@.len() ==> (#[trigger] entries@[t]).0@.len() == 32,
        forall|t1: int, t2: int, b: int|
            0 <= t1 < entries@.len() && 0 <= t2 < entries@.len() && 0 <= b < d ==> #[trigger] bit_at(
                entries@[t1].0@,
                b,
            ) == #[trigger] bit_at(entries@[t2].0@, b),
    ensures
        proof_digest(n) == subtree_hash(pair_view(entries@), d as int),
        proof_lookup(n, kh@) == Some(last_entry_vhash(pair_view(entries@), kh@)),
    decreases 257 - d,
{
    let ghost pv = pair_view(entries@);
    if entries.len() == 0 {
        proof {
            assert(last_entry_vhash(pv, kh@) is None);
        }
        MapProofNode::Empty
    } else if entries.len() == 1 {
        let n = MapProofNode::Leaf {
            khash: copy_bytes(&entries[0].0),
            vhash: copy_bytes(&entries[0].1),
        };
        proof {
            assert(pv.drop_last() =~= Seq::<(Seq<u8>, Seq<u8>)>::empty());
            assert(last_entry_vhash(pv.drop_last(), kh@) is None);
            assert(pv.last() == pv[0]);
            if pv.last().0 == kh@ {
                assert(proof_lookup(n, kh@) == Some(Some(pv.last().1)));
                assert(last_entry_vhash(pv, kh@) == Some(pv.last().1));
            } else {
                assert(proof_lookup(n, kh@) == Some(None::<Seq<u8>>));
                assert(last_entry_vhash(pv, kh@) is None);
            }
        }
        n
    } else if d >= 256 {
        let last = entries.len() - 1;
        proof {
            assert forall|t: int| 0 <= t < pv.len() implies #[trigger] pv[t].0 == pv.last().0 by {
                lemma_digest_eq_from_bits(pv[t].0, pv[pv.len() - 1].0);
            }
            lemma_all_same_key_scan(pv, kh@);
        }
        let n = MapProofNode::Leaf {
            khash: copy_bytes(&entries[last].0),
            vhash: copy_bytes(&entries[last].1),
        };
        proof {
            if pv.last().0 == kh@ {
                assert(proof_lookup(n, kh@) == Some(Some(pv.last().1)));
            } else {
                assert(proof_lookup(n, kh@) == Some(None::<Seq<u8>>));
            }
        }
        n
    } else {
        let bit = get_bit(kh, d);
        let (l, r) = partition_by_bit(&entries, d);
        proof {
            let pred_l = |e: (Seq<u8>, Seq<u8>)| goes_left(e, d as int);
            let pred_r = |e: (Seq<u8>, Seq<u8>)| !goes_left(e, d as int);
            lemma_filter_elems(pv, pred_l);
            lemma_filter_elems(pv, pred_r);
            assert forall|t1: int, t2: int, b: int|
                0 <= t1 < l@.len() && 0 <= t2 < l@.len() && 0 <= b < d + 1 implies #[trigger] bit_at(
                l@[t1].0@,
                b,
            ) == #[trigger] bit_at(l@[t2].0@, b) by {
                lemma_member_bits(pv, pair_view(l@), t1, t2, b, d as int);
            }
            assert forall|t1: int, t2: int, b: int|
                0 <= t1 < r@.len() && 0 <= t2 < r@.len() && 0 <= b < d + 1 implies #[trigger] bit_at(
                r@[t1].0@,
                b,
            ) == #[trigger] bit_at(r@[t2].0@, b) by {
                lemma_member_bits(pv, pair_view(r@), t1, t2, b, d as int);
            }
        }
        if l.len() == 0 {
            proof {
                let pred_l = |e: (Seq<u8>, Seq<u8>)| goes_left(e, d as int);
                let pred_r = |e: (Seq<u8>, Seq<u8>)| !goes_left(e, d as int);
                assert forall|i: int| 0 <= i < pv.len() implies pred_r(#[trigger] pv[i]) by {
                    if pred_l(pv[i]) {
                        pv.lemma_filter_contains(pred_l, i);
                    }
                }
                lemma_last_match_filter(pv, pred_r, kh@);
            }
            let n = gen_subtree(r, d + 1, kh);
            proof {
                assert(proof_digest(n) == subtree_hash(pair_view(r@), d + 1));
                assert(subtree_hash(pv, d as int) == subtree_hash(pair_view(r@), d + 1));
                assert(proof_lookup(n, kh@) == Some(last_entry_vhash(pair_view(r@), kh@)));
                assert(last_entry_vhash(pair_view(r@), kh@) == last_entry_vhash(pv, kh@));
            }
            n
        } else if r.len() == 0 {
            proof {
                let pred_l = |e: (Seq<u8>, Seq<u8>)| goes_left(e, d as int);
                let pred_r = |e: (Seq<u8>, Seq<u8>)| !goes_left(e, d as int);
                assert forall|i: int| 0 <= i < pv.len() implies pred_l(#[trigger] pv[i]) by {
                    if pred_r(pv[i]) {
                        pv.lemma_filter_contains(pred_r, i);
                    }
                }
                lemma_last_match_filter(pv, pred_l, kh@);
            }
            let n = gen_subtree(l, d + 1, kh);
            proof {
                assert(proof_digest(n) == subtree_hash(pair_view(l@), d + 1));
                assert(subtree_hash(pv, d as int) == subtree_hash(pair_view(l@), d + 1));
                assert(proof_lookup(n, kh@) == Some(last_entry_vhash(pair_view(l@), kh@)));
                assert(last_entry_vhash(pair_view(l@), kh@) == last_entry_vhash(pv, kh@));
            }
            n
        } else {
            if bit {
                proof {
                    let pred_r = |e: (Seq<u8>, Seq<u8>)| !goes_left(e, d as int);
                    assert forall|i: int|
                        0 <= i < pv.len() && (#[trigger] pv[i]).0 == kh@ implies pred_r(pv[i]) by {
                        assert(bit_at(pv[i].0, d as int) == bit_at(kh@, d as int));
                    }
                    lemma_last_match_filter(pv, pred_r, kh@);
                }
                let lh = map_subtree(l, d + 1);
                let child = gen_subtree(r, d + 1, kh);
                let n = MapProofNode::Branch {
                    pos: d as u16,
                    left: Box::new(MapProofNode::Pruned { digest: lh }),
                    right: Box::new(child),
                };
                proof {
                    assert(n is Branch);
                    assert(*n->Branch_left == MapProofNode::Pruned { digest: lh });
                    assert(*n->Branch_right == child);
                    assert((d as u16) as int == d as int);
                    assert(proof_digest(n) == branch_hash(
                        (d as u16) as int,
                        proof_digest(*n->Branch_left),
                        proof_digest(*n->Branch_right),
                    ));
                    assert(proof_digest(*n->Branch_left) == subtree_hash(pair_view(l@), d + 1));
                    assert(proof_digest(*n->Branch_right) == subtree_hash(pair_view(r@), d + 1));
                    assert(proof_digest(n) == branch_hash(
                        d as int,
                        subtree_hash(pair_view(l@), d + 1),
                        subtree_hash(pair_view(r@), d + 1),
                    ));
                    assert(proof_lookup(n, kh@) == proof_lookup(child, kh@));
                    assert(proof_lookup(child, kh@) == Some(
                        last_entry_vhash(pair_view(r@), kh@),
                    ));
                    assert(last_entry_vhash(pair_view(r@), kh@) == last_entry_vhash(pv, kh@));
                }
                n
            } else {
                proof {
                    let pred_l = |e: (Seq<u8>, Seq<u8>)| goes_left(e, d as int);
                    assert forall|i: int|
                        0 <= i < pv.len() && (#[trigger] pv[i]).0 == kh@ implies pred_l(pv[i]) by {
                        assert(bit_at(pv[i].0, d as int) == bit_at(kh@, d as int));
                    }
                    lemma_last_match_filter(pv, pred_l, kh@);
                }
                let child = gen_subtree(l, d + 1, kh);
                let rh = map_subtree(r, d + 1);
                let n = MapProofNode::Branch {
                    pos: d as u16,
                    left: Box::new(child),
                    right: Box::new(MapProofNode::Pruned { digest: rh }),
                };
                proof {
                    assert(n is Branch);
                    assert(*n->Branch_left == child);
                    assert(*n->Branch_right == MapProofNode::Pruned { digest: rh });
                    assert((d as u16) as int == d as int);
                    assert(proof_digest(n) == branch_hash(
                        (d as u16) as int,
                        proof_digest(*n->Branch_left),
                        proof_digest(*n->Branch_right),
                    ));
                    assert(proof_digest(*n->Branch_left) == subtree_hash(pair_view(l@), d + 1));
                    assert(proof_digest(*n->Branch_right) == subtree_hash(pair_view(r@), d + 1));
                    assert(proof_digest(n) == branch_hash(
                        d as int,
                        subtree_hash(pair_view(l@), d + 1),
                        subtree_hash(pair_view(r@), d + 1),
                    ));
                    assert(proof_lookup(n, kh@) == proof_lookup(child, kh@));
                    assert(proof_lookup(child, kh@) == Some(
                        last_entry_vhash(pair_view(l@), kh@),
                    ));
                    assert(last_entry_vhash(pair_view(l@), kh@) == last_entry_vhash(pv, kh@));
                }
                n
            }
        }
    }
}

/// When every entry carries one key digest, the scan finds the last entry
/// for that digest and nothing for any other.
proof fn lemma_all_same_key_scan(s: Seq<(Seq<u8>, Seq<u8>)>, kh: Seq<u8>)
    requires
        s.len() >= 1,
        forall|t: int| 0 <= t < s.len() ==> (#[trigger] s[t]).0 == s.last().0,
    ensures
        s.last().0 == kh ==> last_entry_vhash(s, kh) == Some(s.last().1),
        s.last().0 != kh ==> last_entry_vhash(s, kh) is None,
{
    lemma_last_match_some(s, kh);
}

/// Bits below the split depth agree among filtered entries because they
/// agree among the source entries.
proof fn lemma_member_bits(
    s: Seq<(Seq<u8>, Seq<u8>)>,
    f: Seq<(Seq<u8>, Seq<u8>)>,
    t1: int,
    t2: int,
    b: int,
    d: int,
)
    requires
        0 <= t1 < f.len(),
        0 <= t2 < f.len(),
        0 <= b < d + 1,
        forall|t: int| 0 <= t < f.len() ==> s.contains(#[trigger] f[t]),
        forall|u1: int, u2: int, bb: int|
            0 <= u1 < s.len() && 0 <= u2 < s.len() && 0 <= bb < d ==> #[trigger] bit_at(
                s[u1].0,
                bb,
            ) == #[trigger] bit_at(s[u2].0, bb),
        forall|t: int|
            0 <= t < f.len() ==> bit_at((#[trigger] f[t]).0, d) == bit_at(f[0].0, d),
    ensures
        bit_at(f[t1].0, b) == bit_at(f[t2].0, b),
{
    if b < d {
        let u1 = choose|u: int| 0 <= u < s.len() && s[u] == f[t1];
        let u2 = choose|u: int| 0 <= u < s.len() && s[u] == f[t2];
        assert(s.contains(f[t1]) && s.contains(f[t2]));
        assert(bit_at(s[u1].0, b) == bit_at(s[u2].0, b));
    }
}

/// The digest a proof node recomputes.
pub fn node_digest(n: &MapProofNode) -> (r: Vec<u8>)
    ensures
        r@ == proof_digest(*n),
    decreases *n,
{
    match n {
        MapProofNode::Empty => empty_root_bytes(),
        MapProofNode::Leaf { khash, vhash } => hash_map_leaf(khash, vhash),
        MapProofNode::Pruned { digest } => copy_bytes(digest),
        MapProofNode::Branch { pos, left, right } => {
            let lh = node_digest(left);
            let rh = node_digest(right);
            if *pos < 256 {
                hash_map_branch(*pos as u8, &lh, &rh)
            } else {
                // an out-of-range position can never recompute an honest root
                let mut buf: Vec<u8> = Vec::new();
                buf.push(3u8);
                buf.push(*pos as u8);
                let mut la = lh;
                buf.append(&mut la);
                let mut ra = rh;
                buf.append(&mut ra);
                proof {
                    assert(buf@ =~= seq![3u8, (*pos as int) as u8] + proof_digest(**left)
                        + proof_digest(**right));
                }
                sha256(buf.as_slice())
            }
        },
    }
}

/// Walk a proof along a key digest's path.
fn lookup_node(n: &MapProofNode, kh: &Vec<u8>) -> (r: Option<Option<Vec<u8>>>)
    requires
        kh@.len() == 32,
    ensures
        match r {
            None => proof_lookup(*n, kh@) is None,
            Some(None) => proof_lookup(*n, kh@) == Some(None::<Seq<u8>>),
            Some(Some(vh)) => proof_lookup(*n, kh@) == Some(Some(vh@)),
        },
    decreases *n,
{
    match n {
        MapProofNode::Empty => Some(None),
        MapProofNode::Leaf { khash, vhash } => {
            match crate::bytes::key_cmp(khash, kh) {
                crate::bytes::KeyOrder::Equal => Some(Some(copy_bytes(vhash))),
                _ => Some(None),
            }
        },
        MapProofNode::Pruned { digest } => None,
        MapProofNode::Branch { pos, left, right } => {
            if *pos >= 256 {
                None
            } else if get_bit(kh, *pos as usize) {
                lookup_node(right, kh)
            } else {
                lookup_node(left, kh)
            }
        },
    }
}

/// What checking a proof against a root yields: the proof's own statement
/// about the key when its recomputed digest matches the root, and a
/// rejection otherwise.
pub open spec fn map_proof_result(n: MapProofNode, root: Seq<u8>, kh: Seq<u8>) -> Option<
    Option<Seq<u8>>,
> {
    if proof_digest(n) == root {
        proof_lookup(n, kh)
    } else {
        None
    }
}

/// Check a map proof against an expected root for one key: `None` rejects
/// the proof (wrong root or a path into pruned data); `Some(None)` attests
/// the key absent; `Some(Some(vh))` attests it present with value digest
/// `vh`.
pub fn check_map_proof(n: &MapProofNode, expected_root: &Vec<u8>, key: &Vec<u8>) -> (r: Option<
    Option<Vec<u8>>,
>)
    ensures
        match r {
            None => map_proof_result(*n, expected_root@, hash_of(key@)) is None,
            Some(None) => map_proof_result(*n, expected_root@, hash_of(key@)) == Some(
                None::<Seq<u8>>,
            ),
            Some(Some(vh)) => map_proof_result(*n, expected_root@, hash_of(key@)) == Some(
                Some(vh@),
            ),
        },
{
    let d = node_digest(n);
    match crate::bytes::key_cmp(&d, expected_root) {
        crate::bytes::KeyOrder::Equal => {
            let kh = sha256(key.as_slice());
            lookup_node(n, &kh)
        },
        _ => None,
    }
}

impl ProofMapIndex {
    /// A proof for one key against this index's current root: it recomputes
    /// exactly the root digest, and it attests the key present with its
    /// value's digest when the key is there, absent when it is not.
    pub fn get_proof<A: RawAccess>(&self, access: &A, key: &Vec<u8>) -> (n: MapProofNode)
        requires
            access.inv(),
            self.wf(),
        ensures
            proof_digest(n) == map_root_of(self.map_of(access.view_map())),
            proof_lookup(n, hash_of(key@)) == Some(
                last_entry_vhash(
                    hash_pairs(canonical_entries(self.map_of(access.view_map()))),
                    hash_of(key@),
                ),
            ),
    {
        let entries = crate::address::index_entries(access, &self.addr);
        proof {
            lemma_canonical_entries(pair_view(entries@));
        }
        let mut hentries: Vec<(Vec<u8>, Vec<u8>)> = Vec::new();
        let mut i: usize = 0;
        while i < entries.len()
            invariant
                0 <= i <= entries@.len(),
                hentries@.len() == i,
                forall|t: int|
                    0 <= t < i ==> (#[trigger] hentries@[t]).0@ == hash_of(entries@[t].0@)
                        && hentries@[t].1@ == hash_of(entries@[t].1@) && hentries@[t].0@.len()
                        == 32,
            decreases entries@.len() - i,
        {
            let kh = sha256(entries[i].0.as_slice());
            let vh = sha256(entries[i].1.as_slice());
            hentries.push((kh, vh));
            i = i + 1;
        }
        proof {
            assert(pair_view(hentries@) =~= hash_pairs(pair_view(entries@)));
        }
        let kh = sha256(key.as_slice());
        gen_subtree(hentries, 0, &kh)
    }
}

/// Presence is attested: a key the map holds has an entry under its digest
/// in the canonical listing, so the proof's lookup reports `Some`.
pub proof fn lemma_proof_attests_presence(im: Map<Seq<u8>, Seq<u8>>, k: Seq<u8>)
    requires
        exists|s: Seq<(Seq<u8>, Seq<u8>)>| keys_sorted(s) && kmap(s) == im,
        im.contains_key(k),
    ensures
        last_entry_vhash(hash_pairs(canonical_entries(im)), hash_of(k)) is Some,
{
    let c = canonical_entries(im);
    assert(keys_sorted(c) && kmap(c) == im);
    crate::kv::lemma_kmap_domain(c);
    let i = choose|i: int| 0 <= i < c.len() && (#[trigger] c[i]).0 == k;
    assert(hash_pairs(c)[i].0 == hash_of(k));
    lemma_last_match_some(hash_pairs(c), hash_of(k));
}

} // verus!
